//! New and changed parts of a package, by name.

use crate::text::{chars_of, copy_bytes, same_chars};
use vstd::prelude::*;

verus! {

/// A part of a package: its name and its bytes.
#[verifier::ext_equal]
pub struct Part {
    pub name: Seq<char>,
    pub data: Seq<u8>,
}

/// Parts in the order in which their names were first put in.
pub struct PartSet {
    entries: Vec<(String, Vec<u8>)>,
}

impl View for PartSet {
    type V = Seq<Part>;

    closed spec fn view(&self) -> Seq<Part> {
        self.entries@.map_values(|e: (String, Vec<u8>)| Part { name: e.0@, data: e.1@ })
    }
}

/// No name occurs twice.
pub open spec fn distinct_names(parts: Seq<Part>) -> bool {
    forall|i: int, j: int|
        0 <= i < j < parts.len() ==> (#[trigger] parts[i]).name != (#[trigger] parts[j]).name
}

pub open spec fn has_part(parts: Seq<Part>, name: Seq<char>) -> bool {
    exists|i: int| 0 <= i < parts.len() && (#[trigger] parts[i]).name == name
}

/// The bytes of the part with the given name.
pub open spec fn find_part(parts: Seq<Part>, name: Seq<char>) -> Option<Seq<u8>>
    decreases parts.len(),
{
    if parts.len() == 0 {
        None
    } else if parts[0].name == name {
        Some(parts[0].data)
    } else {
        find_part(parts.drop_first(), name)
    }
}

/// `parts` with `data` under `name`, in the place of what had the name, or else at
/// the end.
pub open spec fn put_part(parts: Seq<Part>, name: Seq<char>, data: Seq<u8>) -> Seq<Part> {
    if has_part(parts, name) {
        parts.map_values(
            |p: Part|
                if p.name == name {
                    Part { name, data }
                } else {
                    p
                },
        )
    } else {
        parts.push(Part { name, data })
    }
}

/// The names of the parts.
pub open spec fn part_names(parts: Seq<Part>) -> Seq<Seq<char>> {
    parts.map_values(|p: Part| p.name)
}

impl PartSet {
    /// No name occurs twice.
    pub open spec fn wf(&self) -> bool {
        distinct_names(self@)
    }

    pub fn new() -> (r: PartSet)
        ensures
            r@ == Seq::<Part>::empty(),
            r.wf(),
    {
        let r = PartSet { entries: Vec::new() };
        assert(r@ =~= Seq::<Part>::empty());
        r
    }

    pub fn len(&self) -> (r: usize)
        ensures
            r == self@.len(),
    {
        self.entries.len()
    }

    /// The name of the part at a position.
    pub fn name_at(&self, i: usize) -> (r: &str)
        requires
            i < self@.len(),
        ensures
            r@ == self@[i as int].name,
    {
        self.entries[i].0.as_str()
    }

    /// The bytes of the part at a position.
    pub fn data_at(&self, i: usize) -> (r: &[u8])
        requires
            i < self@.len(),
        ensures
            r@ == self@[i as int].data,
    {
        self.entries[i].1.as_slice()
    }

    fn position(&self, name: &str) -> (r: Option<usize>)
        ensures
            match r {
                Some(i) => i < self@.len() && self@[i as int].name == name@ && forall|k: int|
                    0 <= k < i ==> (#[trigger] self@[k]).name != name@,
                None => !has_part(self@, name@),
            },
    {
        let name_chars = chars_of(name);
        let mut i: usize = 0;
        while i < self.entries.len()
            invariant
                i <= self.entries@.len(),
                name_chars@ == name@,
                forall|k: int| 0 <= k < i ==> (#[trigger] self@[k]).name != name@,
            decreases self.entries@.len() - i,
        {
            assert(self@[i as int].name == self.entries@[i as int].0@);
            if same_chars(chars_of(self.entries[i].0.as_str()).as_slice(), name_chars.as_slice()) {
                return Some(i);
            }
            i = i + 1;
        }
        None
    }

    pub fn contains(&self, name: &str) -> (r: bool)
        ensures
            r == has_part(self@, name@),
    {
        match self.position(name) {
            Some(_) => true,
            None => false,
        }
    }

    /// The bytes of the part with the given name.
    pub fn get(&self, name: &str) -> (r: Option<Vec<u8>>)
        ensures
            match r {
                Some(b) => find_part(self@, name@) == Some(b@),
                None => find_part(self@, name@) is None,
            },
    {
        match self.position(name) {
            Some(i) => {
                proof {
                    lemma_find_at(self@, name@, i as int);
                }
                Some(copy_bytes(self.entries[i].1.as_slice()))
            },
            None => {
                proof {
                    lemma_find_none(self@, name@);
                }
                None
            },
        }
    }

    /// Puts bytes in under a name, in place of what was there.
    pub fn insert(&mut self, name: String, data: Vec<u8>)
        requires
            old(self).wf(),
        ensures
            final(self)@ == put_part(old(self)@, name@, data@),
            final(self).wf(),
    {
        let ghost before = self@;
        let ghost part = Part { name: name@, data: data@ };
        match self.position(name.as_str()) {
            Some(i) => {
                assert(has_part(before, name@));
                assert(before[i as int].name == name@);
                self.entries.set(i, (name, data));
                assert(self@ =~= before.update(i as int, part));
                assert(self@ =~= put_part(before, name@, data@));
            },
            None => {
                self.entries.push((name, data));
                assert(self@ =~= before.push(part));
            },
        }
    }
}

proof fn lemma_find_at(parts: Seq<Part>, name: Seq<char>, i: int)
    requires
        0 <= i < parts.len(),
        parts[i].name == name,
        forall|k: int| 0 <= k < i ==> (#[trigger] parts[k]).name != name,
    ensures
        find_part(parts, name) == Some(parts[i].data),
    decreases parts.len(),
{
    if i > 0 {
        let rest = parts.drop_first();
        assert(parts[0].name != name);
        assert forall|k: int| 0 <= k < i - 1 implies (#[trigger] rest[k]).name != name by {
            assert(rest[k] == parts[k + 1]);
        }
        lemma_find_at(rest, name, i - 1);
    }
}

proof fn lemma_find_none(parts: Seq<Part>, name: Seq<char>)
    requires
        !has_part(parts, name),
    ensures
        find_part(parts, name) is None,
    decreases parts.len(),
{
    if parts.len() > 0 {
        let rest = parts.drop_first();
        assert(parts[0].name != name);
        assert forall|k: int| 0 <= k < rest.len() implies (#[trigger] rest[k]).name != name by {
            assert(rest[k] == parts[k + 1]);
        }
        lemma_find_none(rest, name);
    }
}

/// A part is found exactly where there is one with the name.
pub proof fn law_part_is_found(parts: Seq<Part>, name: Seq<char>)
    ensures
        find_part(parts, name) is Some <==> has_part(parts, name),
        has_part(parts, name) <==> part_names(parts).contains(name),
    decreases parts.len(),
{
    if has_part(parts, name) {
        let i = choose|i: int| 0 <= i < parts.len() && (#[trigger] parts[i]).name == name;
        assert(part_names(parts)[i] == name);
    }
    if part_names(parts).contains(name) {
        let i = choose|i: int| 0 <= i < part_names(parts).len() && part_names(parts)[i] == name;
        assert(parts[i].name == name);
    }
    if parts.len() > 0 {
        let rest = parts.drop_first();
        law_part_is_found(rest, name);
        if has_part(rest, name) {
            let i = choose|i: int| 0 <= i < rest.len() && (#[trigger] rest[i]).name == name;
            assert(parts[i + 1].name == name);
        }
        if has_part(parts, name) && parts[0].name != name {
            let i = choose|i: int| 0 <= i < parts.len() && (#[trigger] parts[i]).name == name;
            assert(rest[i - 1].name == name);
        }
        if parts[0].name == name {
            assert(has_part(parts, name));
        }
    }
}

/// What was put in is found under its name; every other part stays as it was.
pub proof fn law_put_part_is_found(parts: Seq<Part>, name: Seq<char>, data: Seq<u8>, other: Seq<char>)
    ensures
        find_part(put_part(parts, name, data), name) == Some(data),
        other != name ==> find_part(put_part(parts, name, data), other) == find_part(parts, other),
    decreases parts.len(),
{
    let new = Part { name, data };
    let all = put_part(parts, name, data);
    if parts.len() == 0 {
        assert(all[0] == new);
        assert(all.drop_first() =~= parts);
    } else {
        let rest = parts.drop_first();
        law_put_part_is_found(rest, name, data, other);
        if parts[0].name == name {
            assert(has_part(parts, name));
            assert(all[0] == new);
            if has_part(rest, name) {
                assert(all.drop_first() =~= put_part(rest, name, data));
            } else {
                assert forall|k: int| 0 <= k < rest.len() implies rest[k].name != name by {
                    assert(rest[k].name != name);
                }
                assert(all.drop_first() =~= rest);
            }
        } else {
            if has_part(rest, name) {
                let k = choose|k: int| 0 <= k < rest.len() && (#[trigger] rest[k]).name == name;
                assert(parts[k + 1].name == name);
            } else {
                assert forall|k: int| 0 <= k < parts.len() implies (#[trigger] parts[k]).name != name by {
                    if k > 0 {
                        assert(rest[k - 1].name != name);
                    }
                }
            }
            assert(has_part(parts, name) == has_part(rest, name));
            assert(all[0] == parts[0]);
            assert(all.drop_first() =~= put_part(rest, name, data));
        }
    }
}

/// Putting a part in does not make a name occur twice.
pub proof fn law_put_part_keeps_names_distinct(parts: Seq<Part>, name: Seq<char>, data: Seq<u8>)
    requires
        distinct_names(parts),
    ensures
        distinct_names(put_part(parts, name, data)),
{
    let all = put_part(parts, name, data);
    assert forall|i: int, j: int| 0 <= i < j < all.len() implies (#[trigger] all[i]).name != (
    #[trigger] all[j]).name by {
        if has_part(parts, name) {
            assert(all[i].name == parts[i].name && all[j].name == parts[j].name);
        } else {
            assert(all[i] == parts[i]);
            if j < parts.len() {
                assert(all[j] == parts[j]);
            }
        }
    }
}

/// A part that is put in twice is the one that was put in last.
pub proof fn law_last_part_wins(parts: Seq<Part>, name: Seq<char>, first: Seq<u8>, data: Seq<u8>)
    ensures
        put_part(put_part(parts, name, first), name, data) == put_part(parts, name, data),
{
    let once = put_part(parts, name, first);
    law_put_part_is_found(parts, name, first, name);
    law_part_is_found(once, name);
    if !has_part(parts, name) {
        assert forall|i: int| 0 <= i < parts.len() implies (#[trigger] parts[i]).name != name by {
            if parts[i].name == name {
                assert(has_part(parts, name));
            }
        }
    }
    assert(put_part(once, name, data) =~= put_part(parts, name, data));
}

/// Replacing a part and putting in another can be done in either order.
pub proof fn lemma_put_parts_commute(
    parts: Seq<Part>,
    name: Seq<char>,
    data: Seq<u8>,
    other: Seq<char>,
    other_data: Seq<u8>,
)
    requires
        has_part(parts, name),
        name != other,
    ensures
        put_part(put_part(parts, other, other_data), name, data) == put_part(
            put_part(parts, name, data),
            other,
            other_data,
        ),
{
    let a = put_part(parts, other, other_data);
    let b = put_part(parts, name, data);
    law_put_part_is_found(parts, other, other_data, name);
    law_put_part_is_found(parts, name, data, other);
    law_part_is_found(parts, name);
    law_part_is_found(parts, other);
    law_part_is_found(a, name);
    law_part_is_found(b, other);
    assert(put_part(a, name, data) =~= put_part(b, other, other_data));
}

/// Replacing a part leaves the names as they were.
pub proof fn law_replaced_part_keeps_names(parts: Seq<Part>, name: Seq<char>, data: Seq<u8>)
    requires
        has_part(parts, name),
    ensures
        part_names(put_part(parts, name, data)) == part_names(parts),
{
    assert(part_names(put_part(parts, name, data)) =~= part_names(parts));
}

} // verus!
