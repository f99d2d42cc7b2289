use vstd::prelude::*;
use vstd::string::StringSliceAdditionalSpecFns;
use vstd::utf8::{decode_utf8, encode_utf8_decode_utf8};

verus! {

/// A type that stands for one logical bean type. The identity is a constant of
/// the type, so it does not depend on lifetimes or on the value that is stored.
pub trait AutumnIdentified {
    /// The key under which beans of this type are filed. Two bean types of one
    /// program must not share a key.
    const IDENTIFIER: u64;

    /// A readable name of the type, for diagnostics.
    const NAME: &'static str;
}

/// Marks an identified type as one that a context may hold.
pub trait AutumnBean: AutumnIdentified {

}

/// The key of the bean type `T`.
pub fn autumn_id<T: AutumnIdentified>() -> (id: u64)
    ensures
        id == T::IDENTIFIER,
{
    T::IDENTIFIER
}

/// The name of a slot as contracts see it: the characters of the name, or
/// `None` for the unnamed slot.
pub type SlotName = Option<Seq<char>>;

/// The view of a name that a caller passes.
pub open spec fn name_view(name: Option<&'static str>) -> SlotName {
    match name {
        Some(n) => Some(n@),
        None => None,
    }
}

/// Whether `list` names the slot for `key` and `name`.
pub open spec fn lists(list: Seq<(u64, Option<&'static str>)>, key: u64, name: SlotName) -> bool {
    exists|i: int|
        0 <= i < list.len() && (#[trigger] list[i]).0 == key && name_view(list[i].1) == name
}

/// What a list names, it still names after one more slot is added to it.
pub proof fn lemma_lists_push(
    list: Seq<(u64, Option<&'static str>)>,
    added: (u64, Option<&'static str>),
    key: u64,
    name: SlotName,
)
    ensures
        lists(list, key, name) ==> lists(list.push(added), key, name),
        added.0 == key && name_view(added.1) == name ==> lists(list.push(added), key, name),
{
    let longer = list.push(added);
    if lists(list, key, name) {
        let i = choose|i: int|
            0 <= i < list.len() && (#[trigger] list[i]).0 == key && name_view(list[i].1) == name;
        assert(longer[i] == list[i]);
    }
    if added.0 == key && name_view(added.1) == name {
        assert(longer[list.len() as int] == added);
    }
}

/// A list of slots as contracts see it: each name by its characters.
pub open spec fn slots_view(list: Seq<(u64, Option<&'static str>)>) -> Seq<(u64, SlotName)> {
    Seq::new(list.len(), |i: int| (list[i].0, name_view(list[i].1)))
}

/// The slots of the bean type with this key that have the names `names`, in
/// the order of `names`.
pub open spec fn slots_of(key: u64, names: Seq<SlotName>) -> Seq<(u64, SlotName)> {
    Seq::new(names.len(), |i: int| (key, names[i]))
}

/// Whether two names hold the same characters, found by comparing their
/// bytes.
pub(crate) fn same_name(a: &str, b: &str) -> (same: bool)
    ensures
        same == (a@ == b@),
{
    let left = a.as_bytes();
    let right = b.as_bytes();
    proof {
        encode_utf8_decode_utf8(a@);
        encode_utf8_decode_utf8(b@);
    }
    if left.len() != right.len() {
        return false;
    }
    let mut i: usize = 0;
    while i < left.len()
        invariant
            i <= left.len(),
            left.len() == right.len(),
            left@ == a.spec_bytes(),
            right@ == b.spec_bytes(),
            decode_utf8(a.spec_bytes()) == a@,
            decode_utf8(b.spec_bytes()) == b@,
            forall|k: int| 0 <= k < i ==> left@[k] == right@[k],
        decreases left.len() - i,
    {
        if left[i] != right[i] {
            return false;
        }
        i += 1;
    }
    assert(left@ =~= right@);
    true
}

spec fn listed_at<T>(named: Seq<(&'static str, T)>, n: Seq<char>, i: int) -> bool {
    0 <= i < named.len() && named[i].0@ == n
}

spec fn listed<T>(named: Seq<(&'static str, T)>, n: Seq<char>) -> Option<T> {
    if exists|i: int| listed_at(named, n, i) {
        Some(named[choose|i: int| listed_at(named, n, i)].1)
    } else {
        None
    }
}

spec fn distinct<T>(named: Seq<(&'static str, T)>) -> bool {
    forall|i: int, j: int|
        0 <= i < j < named.len() ==> (#[trigger] named[i]).0@ != (#[trigger] named[j]).0@
}

proof fn lemma_listed_at<T>(named: Seq<(&'static str, T)>, i: int)
    requires
        distinct(named),
        0 <= i < named.len(),
    ensures
        listed(named, named[i].0@) == Some(named[i].1),
{
    let n = named[i].0@;
    assert(listed_at(named, n, i));
    let j = choose|j: int| listed_at(named, n, j);
    assert(listed_at(named, n, j));
    if i < j {
        assert(named[i].0@ != named[j].0@);
    }
    if j < i {
        assert(named[j].0@ != named[i].0@);
    }
}

proof fn lemma_listed_none<T>(named: Seq<(&'static str, T)>, n: Seq<char>)
    requires
        forall|i: int| 0 <= i < named.len() ==> (#[trigger] named[i]).0@ != n,
    ensures
        listed(named, n) is None,
{
    assert forall|i: int| !listed_at(named, n, i) by {
        if 0 <= i < named.len() {
            assert(named[i].0@ != n);
        }
    }
}

/// Where `n` is listed, the place at which it stands.
proof fn lemma_listed_some<T>(named: Seq<(&'static str, T)>, n: Seq<char>) -> (i: int)
    requires
        listed(named, n) is Some,
    ensures
        0 <= i < named.len(),
        named[i].0@ == n,
        listed(named, n) == Some(named[i].1),
{
    let i = choose|i: int| listed_at(named, n, i);
    assert(listed_at(named, n, i));
    i
}

/// Two lists that hold every name at the same place, and the same entry
/// wherever the name is `n`, agree on `n`.
proof fn lemma_listed_same<T>(
    now: Seq<(&'static str, T)>,
    before: Seq<(&'static str, T)>,
    n: Seq<char>,
)
    requires
        distinct(now),
        distinct(before),
        now.len() == before.len(),
        forall|k: int| 0 <= k < now.len() ==> (#[trigger] now[k]).0@ == before[k].0@,
        forall|k: int| 0 <= k < now.len() && now[k].0@ == n ==> (#[trigger] now[k]) == before[k],
    ensures
        listed(now, n) == listed(before, n),
{
    if listed(before, n) is Some {
        let i = lemma_listed_some(before, n);
        assert(now[i].0@ == n);
        lemma_listed_at(now, i);
    } else {
        assert forall|k: int| 0 <= k < now.len() implies (#[trigger] now[k]).0@ != n by {
            if now[k].0@ == n {
                assert(before[k].0@ == n);
                lemma_listed_at(before, k);
            }
        }
        lemma_listed_none(now, n);
    }
}

/// Appending an entry changes what is listed under no other name.
proof fn lemma_listed_push<T>(
    before: Seq<(&'static str, T)>,
    entry: (&'static str, T),
    n: Seq<char>,
)
    requires
        distinct(before),
        distinct(before.push(entry)),
        n != entry.0@,
    ensures
        listed(before.push(entry), n) == listed(before, n),
{
    let now = before.push(entry);
    if listed(before, n) is Some {
        let i = lemma_listed_some(before, n);
        assert(now[i] == before[i]);
        lemma_listed_at(now, i);
    } else {
        assert forall|k: int| 0 <= k < now.len() implies (#[trigger] now[k]).0@ != n by {
            if k < before.len() && now[k].0@ == n {
                assert(now[k] == before[k]);
                lemma_listed_at(before, k);
            }
        }
        lemma_listed_none(now, n);
    }
}

/// Removing an entry keeps the list free of repeats and changes what is
/// listed under no other name; the removed name is listed no more.
proof fn lemma_listed_remove<T>(before: Seq<(&'static str, T)>, at: int, n: Seq<char>)
    requires
        distinct(before),
        0 <= at < before.len(),
    ensures
        distinct(before.remove(at)),
        n != before[at].0@ ==> listed(before.remove(at), n) == listed(before, n),
        n == before[at].0@ ==> listed(before.remove(at), n) is None,
{
    let now = before.remove(at);
    assert forall|k: int| 0 <= k < now.len() implies (#[trigger] now[k]) == before[if k < at {
        k
    } else {
        k + 1
    }] by {}
    assert forall|i: int, j: int| 0 <= i < j < now.len() implies (#[trigger] now[i]).0@ != (
    #[trigger] now[j]).0@ by {
        let bi = if i < at { i } else { i + 1 };
        let bj = if j < at { j } else { j + 1 };
        assert(before[bi].0@ != before[bj].0@);
    }
    if n == before[at].0@ {
        assert forall|k: int| 0 <= k < now.len() implies (#[trigger] now[k]).0@ != n by {
            let bk = if k < at { k } else { k + 1 };
            if bk < at {
                assert(before[bk].0@ != before[at].0@);
            } else {
                assert(before[at].0@ != before[bk].0@);
            }
        }
        lemma_listed_none(now, n);
    } else if listed(before, n) is Some {
        let i = lemma_listed_some(before, n);
        let j = if i < at { i } else { i - 1 };
        assert(now[j] == before[i]);
        lemma_listed_at(now, j);
    } else {
        assert forall|k: int| 0 <= k < now.len() implies (#[trigger] now[k]).0@ != n by {
            let bk = if k < at { k } else { k + 1 };
            if before[bk].0@ == n {
                lemma_listed_at(before, bk);
            }
        }
        lemma_listed_none(now, n);
    }
}

/// What is stored for one bean type: at most one unnamed entry, and at most
/// one entry for each name.
pub struct AutumnBeanMapValue<T> {
    unnamed: Option<T>,
    named: Vec<(&'static str, T)>,
}

impl<T> AutumnBeanMapValue<T> {
    /// No name is listed twice.
    pub closed spec fn wf(&self) -> bool {
        distinct(self.named@)
    }

    /// The entry stored under `name`, if there is one.
    pub closed spec fn spec_get(&self, name: SlotName) -> Option<T> {
        match name {
            None => self.unnamed,
            Some(n) => listed(self.named@, n),
        }
    }

    /// The occupied names: the unnamed slot first if it is occupied, then the
    /// names in the order in which they were first filled.
    pub closed spec fn spec_names(&self) -> Seq<SlotName> {
        let named = Seq::new(self.named.len() as nat, |i: int| Some(self.named[i].0@));
        if self.unnamed is Some {
            seq![None].add(named)
        } else {
            named
        }
    }

    /// `spec_names` lists exactly the occupied names, each once.
    pub proof fn lemma_names(&self)
        requires
            self.wf(),
        ensures
            self.spec_names().no_duplicates(),
            forall|name: SlotName|
                self.spec_names().contains(name) <==> (#[trigger] self.spec_get(name)) is Some,
    {
        let names = self.spec_names();
        let shift: int = if self.unnamed is Some {
            1
        } else {
            0
        };
        assert(forall|k: int|
            shift <= k < names.len() ==> names[k] == Some(self.named[k - shift].0@));
        assert forall|i: int, j: int| 0 <= i < j < names.len() implies names[i] != names[j] by {
            if i >= shift {
                assert(self.named[i - shift].0@ != self.named[j - shift].0@);
            }
        }
        assert forall|name: SlotName| names.contains(name) <==> (#[trigger] self.spec_get(
            name,
        )) is Some by {
            match name {
                None => {
                    if self.unnamed is Some {
                        assert(names[0] == name);
                    }
                },
                Some(n) => {
                    if listed(self.named@, n) is Some {
                        let i = lemma_listed_some(self.named@, n);
                        assert(names[i + shift] == name);
                    }
                    if names.contains(name) {
                        let k = choose|k: int| 0 <= k < names.len() && names[k] == name;
                        lemma_listed_at(self.named@, k - shift);
                    }
                },
            }
        }
    }

    /// A slot that holds nothing.
    pub(crate) fn new() -> (slot: Self)
        ensures
            slot.wf(),
            slot.spec_names() == Seq::<SlotName>::empty(),
            forall|name: SlotName| (#[trigger] slot.spec_get(name)) is None,
    {
        let slot = AutumnBeanMapValue { unnamed: None, named: Vec::new() };
        proof {
            assert forall|name: SlotName| (#[trigger] slot.spec_get(name)) is None by {
                if let Some(n) = name {
                    lemma_listed_none(slot.named@, n);
                }
            }
            assert(slot.spec_names() =~= Seq::<SlotName>::empty());
        }
        slot
    }

    fn position(&self, name: &str) -> (at: Option<usize>)
        ensures
            match at {
                Some(i) => i < self.named.len() && self.named[i as int].0@ == name@,
                None => forall|i: int|
                    0 <= i < self.named.len() ==> (#[trigger] self.named@[i]).0@ != name@,
            },
    {
        let mut i: usize = 0;
        while i < self.named.len()
            invariant
                i <= self.named.len(),
                forall|k: int| 0 <= k < i ==> (#[trigger] self.named@[k]).0@ != name@,
            decreases self.named.len() - i,
        {
            if same_name(self.named[i].0, name) {
                return Some(i);
            }
            i += 1;
        }
        None
    }

    /// Stores `value` under `name` and hands back what was stored there before.
    /// A name that was free is listed after those that were occupied (the
    /// unnamed slot always stands first).
    pub fn insert(&mut self, name: Option<&'static str>, value: T) -> (before: Option<T>)
        requires
            old(self).wf(),
        ensures
            final(self).wf(),
            before == old(self).spec_get(name_view(name)),
            final(self).spec_get(name_view(name)) == Some(value),
            forall|other: SlotName|
                other != name_view(name) ==> (#[trigger] final(self).spec_get(other))
                    == old(self).spec_get(other),
            before is Some ==> final(self).spec_names() == old(self).spec_names(),
            before is None && name is Some ==> final(self).spec_names()
                == old(self).spec_names().push(name_view(name)),
            before is None && name is None ==> final(self).spec_names() == seq![
                name_view(name),
            ].add(old(self).spec_names()),
    {
        match name {
            None => {
                let mut held = Some(value);
                std::mem::swap(&mut self.unnamed, &mut held);
                proof {
                    if held is Some {
                        assert(self.spec_names() =~= old(self).spec_names());
                    } else {
                        assert(self.spec_names() =~= seq![name_view(name)].add(
                            old(self).spec_names(),
                        ));
                    }
                }
                held
            },
            Some(n) => {
                match self.position(n) {
                    Some(i) => {
                        let (kept, before) = self.named.remove(i);
                        self.named.insert(i, (kept, value));
                        proof {
                            let was = old(self).named@;
                            let now = self.named@;
                            assert(now =~= was.update(i as int, (kept, value)));
                            assert forall|a: int, b: int| 0 <= a < b < now.len() implies (
                            #[trigger] now[a]).0@ != (#[trigger] now[b]).0@ by {
                                assert(was[a].0@ != was[b].0@);
                            }
                            lemma_listed_at(was, i as int);
                            lemma_listed_at(now, i as int);
                            assert forall|other: SlotName| other != name_view(name) implies (
                            #[trigger] self.spec_get(other)) == old(self).spec_get(other) by {
                                if let Some(o) = other {
                                    lemma_listed_same(now, was, o);
                                }
                            }
                            assert(self.spec_names() =~= old(self).spec_names());
                        }
                        Some(before)
                    },
                    None => {
                        self.named.push((n, value));
                        proof {
                            let was = old(self).named@;
                            let now = self.named@;
                            lemma_listed_none(was, n@);
                            assert forall|a: int, b: int| 0 <= a < b < now.len() implies (
                            #[trigger] now[a]).0@ != (#[trigger] now[b]).0@ by {
                                if b < was.len() {
                                    assert(was[a].0@ != was[b].0@);
                                } else {
                                    assert(was[a].0@ != n@);
                                }
                            }
                            lemma_listed_at(now, was.len() as int);
                            assert forall|other: SlotName| other != name_view(name) implies (
                            #[trigger] self.spec_get(other)) == old(self).spec_get(other) by {
                                if let Some(o) = other {
                                    lemma_listed_push(was, (n, value), o);
                                }
                            }
                            assert(self.spec_names() =~= old(self).spec_names().push(
                                name_view(name),
                            ));
                        }
                        None
                    },
                }
            },
        }
    }

    /// The entry stored under `name`.
    pub fn get(&self, name: Option<&'static str>) -> (found: Option<&T>)
        requires
            self.wf(),
        ensures
            match found {
                Some(entry) => self.spec_get(name_view(name)) == Some(*entry),
                None => self.spec_get(name_view(name)) is None,
            },
    {
        match name {
            None => self.unnamed.as_ref(),
            Some(n) => {
                match self.position(n) {
                    Some(i) => {
                        proof {
                            lemma_listed_at(self.named@, i as int);
                        }
                        Some(&self.named[i].1)
                    },
                    None => {
                        proof {
                            lemma_listed_none(self.named@, n@);
                        }
                        None
                    },
                }
            },
        }
    }

    /// The entry stored under `name`, for the caller to change in place.
    pub fn get_mut(&mut self, name: Option<&'static str>) -> (found: Option<&mut T>)
        requires
            old(self).wf(),
        ensures
            final(self).wf(),
            final(self).spec_names() == old(self).spec_names(),
            match found {
                Some(entry) => old(self).spec_get(name_view(name)) == Some(*entry)
                    && final(self).spec_get(name_view(name)) == Some(*final(entry)),
                None => old(self).spec_get(name_view(name)) is None && *final(self) == *old(self),
            },
            forall|other: SlotName|
                other != name_view(name) ==> (#[trigger] final(self).spec_get(other))
                    == old(self).spec_get(other),
    {
        match name {
            None => match &mut self.unnamed {
                Some(entry) => Some(entry),
                None => None,
            },
            Some(n) => {
                match self.position(n) {
                    Some(i) => {
                        proof {
                            lemma_listed_at(self.named@, i as int);
                        }
                        let ghost was = self.named@;
                        let entry = &mut self.named[i];
                        let found = &mut entry.1;
                        proof {
                            let now = was.update(i as int, (was[i as int].0, *final(found)));
                            assert forall|a: int, b: int| 0 <= a < b < now.len() implies (
                            #[trigger] now[a]).0@ != (#[trigger] now[b]).0@ by {
                                assert(was[a].0@ != was[b].0@);
                            }
                            lemma_listed_at(now, i as int);
                            assert forall|o: Seq<char>| o != n@ implies listed(now, o) == listed(
                                was,
                                o,
                            ) by {
                                lemma_listed_same(now, was, o);
                            }
                            assert(Seq::new(now.len(), |k: int| Some(now[k].0@)) =~= Seq::new(
                                was.len(),
                                |k: int| Some(was[k].0@),
                            ));
                        }
                        Some(found)
                    },
                    None => {
                        proof {
                            lemma_listed_none(self.named@, n@);
                        }
                        None
                    },
                }
            },
        }
    }

    /// Takes the entry stored under `name` out of the slot. The other names
    /// keep their order.
    pub fn remove(&mut self, name: Option<&'static str>) -> (taken: Option<T>)
        requires
            old(self).wf(),
        ensures
            final(self).wf(),
            taken == old(self).spec_get(name_view(name)),
            final(self).spec_get(name_view(name)) is None,
            forall|other: SlotName|
                other != name_view(name) ==> (#[trigger] final(self).spec_get(other))
                    == old(self).spec_get(other),
            taken is None ==> *final(self) == *old(self),
            taken is Some ==> exists|at: int|
                0 <= at < old(self).spec_names().len() && #[trigger] old(self).spec_names()[at]
                    == name_view(name) && final(self).spec_names()
                    == old(self).spec_names().remove(at),
    {
        match name {
            None => {
                let mut held = None;
                std::mem::swap(&mut self.unnamed, &mut held);
                proof {
                    if held is Some {
                        assert(old(self).spec_names()[0] == name_view(name));
                        assert(self.spec_names() =~= old(self).spec_names().remove(0));
                    }
                }
                held
            },
            Some(n) => {
                match self.position(n) {
                    Some(i) => {
                        let (_, taken) = self.named.remove(i);
                        proof {
                            let was = old(self).named@;
                            lemma_listed_at(was, i as int);
                            lemma_listed_remove(was, i as int, n@);
                            let at = if old(self).unnamed is Some {
                                i + 1
                            } else {
                                i as int
                            };
                            assert(old(self).spec_names()[at] == name_view(name));
                            assert(self.spec_names() =~= old(self).spec_names().remove(at));
                            assert forall|other: SlotName| other != name_view(name) implies (
                            #[trigger] self.spec_get(other)) == old(self).spec_get(other) by {
                                if let Some(o) = other {
                                    lemma_listed_remove(was, i as int, o);
                                }
                            }
                        }
                        Some(taken)
                    },
                    None => {
                        proof {
                            lemma_listed_none(self.named@, n@);
                        }
                        None
                    },
                }
            },
        }
    }

    /// The occupied names, in the order of `spec_names`.
    pub fn names(&self) -> (list: Vec<Option<&'static str>>)
        ensures
            list@.len() == self.spec_names().len(),
            forall|i: int| 0 <= i < list@.len() ==> name_view(#[trigger] list@[i])
                == self.spec_names()[i],
    {
        let mut list: Vec<Option<&'static str>> = Vec::new();
        if self.unnamed.is_some() {
            list.push(None);
        }
        let ghost shift: int = list@.len() as int;
        let mut i: usize = 0;
        while i < self.named.len()
            invariant
                i <= self.named.len(),
                shift == (if self.unnamed is Some {
                    1int
                } else {
                    0int
                }),
                list@.len() == shift + i,
                forall|k: int| 0 <= k < list@.len() ==> name_view(#[trigger] list@[k])
                    == self.spec_names()[k],
            decreases self.named.len() - i,
        {
            list.push(Some(self.named[i].0));
            i += 1;
        }
        list
    }
}


spec fn filed_at<S>(map: Seq<(u64, S)>, key: u64, i: int) -> bool {
    0 <= i < map.len() && map[i].0 == key
}

spec fn filed<S>(map: Seq<(u64, S)>, key: u64) -> Option<S> {
    if exists|i: int| filed_at(map, key, i) {
        Some(map[choose|i: int| filed_at(map, key, i)].1)
    } else {
        None
    }
}

spec fn distinct_keys<S>(map: Seq<(u64, S)>) -> bool {
    forall|i: int, j: int| 0 <= i < j < map.len() ==> (#[trigger] map[i]).0 != (#[trigger] map[j]).0
}

proof fn lemma_filed_at<S>(map: Seq<(u64, S)>, i: int)
    requires
        distinct_keys(map),
        0 <= i < map.len(),
    ensures
        filed(map, map[i].0) == Some(map[i].1),
{
    let key = map[i].0;
    assert(filed_at(map, key, i));
    let j = choose|j: int| filed_at(map, key, j);
    assert(filed_at(map, key, j));
    if i < j {
        assert(map[i].0 != map[j].0);
    }
    if j < i {
        assert(map[j].0 != map[i].0);
    }
}

proof fn lemma_filed_none<S>(map: Seq<(u64, S)>, key: u64)
    requires
        forall|i: int| 0 <= i < map.len() ==> (#[trigger] map[i]).0 != key,
    ensures
        filed(map, key) is None,
{
    assert forall|i: int| !filed_at(map, key, i) by {
        if 0 <= i < map.len() {
            assert(map[i].0 != key);
        }
    }
}

/// Where `key` is filed, the place at which it stands.
proof fn lemma_filed_some<S>(map: Seq<(u64, S)>, key: u64) -> (i: int)
    requires
        filed(map, key) is Some,
    ensures
        0 <= i < map.len(),
        map[i].0 == key,
        filed(map, key) == Some(map[i].1),
{
    let i = choose|i: int| filed_at(map, key, i);
    assert(filed_at(map, key, i));
    i
}

/// A list that is `before` with a changed or an added slot for one key files
/// every other key as `before` does.
proof fn lemma_filed_elsewhere<S>(now: Seq<(u64, S)>, before: Seq<(u64, S)>, key: u64)
    requires
        distinct_keys(now),
        distinct_keys(before),
        before.len() <= now.len(),
        forall|k: int| 0 <= k < before.len() ==> (#[trigger] now[k]).0 == before[k].0,
        forall|k: int|
            0 <= k < before.len() && now[k].0 == key ==> (#[trigger] now[k]) == before[k],
        forall|k: int| before.len() <= k < now.len() ==> (#[trigger] now[k]).0 != key,
    ensures
        filed(now, key) == filed(before, key),
{
    if filed(before, key) is Some {
        let i = lemma_filed_some(before, key);
        assert(now[i].0 == key);
        lemma_filed_at(now, i);
    } else {
        assert forall|k: int| 0 <= k < now.len() implies (#[trigger] now[k]).0 != key by {
            if k < before.len() && now[k].0 == key {
                assert(before[k].0 == key);
                lemma_filed_at(before, k);
            }
        }
        lemma_filed_none(now, key);
    }
}

/// The occupied slots of the listed bean types: type after type, and for
/// each type in the order of its names.
spec fn occupied<T>(map: Seq<(u64, AutumnBeanMapValue<T>)>) -> Seq<(u64, SlotName)>
    decreases map.len(),
{
    if map.len() == 0 {
        Seq::empty()
    } else {
        occupied(map.drop_last()).add(slots_of(map.last().0, map.last().1.spec_names()))
    }
}

/// A slot stands among the occupied slots exactly if its bean type is listed
/// and its name is one of the names of that type.
proof fn lemma_occupied<T>(map: Seq<(u64, AutumnBeanMapValue<T>)>, key: u64, name: SlotName)
    ensures
        occupied(map).contains((key, name)) <==> exists|i: int|
            0 <= i < map.len() && (#[trigger] map[i]).0 == key && map[i].1.spec_names().contains(
                name,
            ),
    decreases map.len(),
{
    if map.len() > 0 {
        let rest = map.drop_last();
        let last = map.last();
        let tail = slots_of(last.0, last.1.spec_names());
        lemma_occupied(rest, key, name);
        if occupied(map).contains((key, name)) {
            let at = choose|at: int|
                0 <= at < occupied(map).len() && occupied(map)[at] == (key, name);
            if at < occupied(rest).len() {
                assert(occupied(rest)[at] == (key, name));
                assert(occupied(rest).contains((key, name)));
                let i = choose|i: int|
                    0 <= i < rest.len() && (#[trigger] rest[i]).0 == key
                        && rest[i].1.spec_names().contains(name);
                assert(map[i] == rest[i]);
            } else {
                let k = at - occupied(rest).len();
                assert(tail[k] == (key, name));
                assert(last.1.spec_names()[k] == name);
                assert(map[map.len() - 1] == last);
            }
        }
        if exists|i: int|
            0 <= i < map.len() && (#[trigger] map[i]).0 == key && map[i].1.spec_names().contains(
                name,
            ) {
            let i = choose|i: int|
                0 <= i < map.len() && (#[trigger] map[i]).0 == key
                    && map[i].1.spec_names().contains(name);
            if i < rest.len() {
                assert(rest[i] == map[i]);
                assert(occupied(rest).contains((key, name)));
                let at = choose|at: int|
                    0 <= at < occupied(rest).len() && occupied(rest)[at] == (key, name);
                assert(occupied(map)[at] == (key, name));
            } else {
                let k = choose|k: int|
                    0 <= k < last.1.spec_names().len() && last.1.spec_names()[k] == name;
                assert(tail[k] == (key, name));
                assert(occupied(map)[occupied(rest).len() + k] == (key, name));
            }
        }
    }
}

/// The storage of a context: for each bean type that was ever addressed, by
/// its key, what is stored for it.
pub struct AutumnBeanMap<T> {
    map: Vec<(u64, AutumnBeanMapValue<T>)>,
}

impl<T> AutumnBeanMap<T> {
    /// No key is filed twice, and every slot is well formed.
    pub closed spec fn wf(&self) -> bool {
        &&& distinct_keys(self.map@)
        &&& forall|i: int| 0 <= i < self.map.len() ==> (#[trigger] self.map[i]).1.wf()
    }

    /// What is stored for the bean type with this key, if the type was ever
    /// addressed.
    pub closed spec fn spec_slot(&self, key: u64) -> Option<AutumnBeanMapValue<T>> {
        filed(self.map@, key)
    }

    /// The entry stored for the bean type with this key under `name`.
    pub open spec fn spec_entry(&self, key: u64, name: SlotName) -> Option<T> {
        match self.spec_slot(key) {
            Some(slot) => slot.spec_get(name),
            None => None,
        }
    }

    /// The keys that were addressed, in the order in which they first were.
    pub closed spec fn spec_keys(&self) -> Seq<u64> {
        Seq::new(self.map.len() as nat, |i: int| self.map[i].0)
    }

    /// The occupied slots, each by the key of its bean type and its name: the
    /// bean types in the order in which they were first addressed, and for
    /// each the unnamed slot first, then the names in the order in which they
    /// were first filled.
    pub closed spec fn spec_entries(&self) -> Seq<(u64, SlotName)> {
        occupied(self.map@)
    }

    /// `spec_entries` lists exactly the slots that hold an entry.
    pub proof fn lemma_entries(&self, key: u64, name: SlotName)
        requires
            self.wf(),
        ensures
            self.spec_entries().contains((key, name)) <==> self.spec_entry(key, name) is Some,
    {
        lemma_occupied(self.map@, key, name);
        if self.spec_entry(key, name) is Some {
            let i = lemma_filed_some(self.map@, key);
            self.map@[i].1.lemma_names();
            assert(self.map@[i].1.spec_names().contains(name));
        }
        if self.spec_entries().contains((key, name)) {
            let i = choose|i: int|
                0 <= i < self.map@.len() && (#[trigger] self.map@[i]).0 == key
                    && self.map@[i].1.spec_names().contains(name);
            lemma_filed_at(self.map@, i);
            self.map@[i].1.lemma_names();
        }
    }

    /// Every slot that is filed is well formed, and `spec_keys` lists exactly
    /// the keys that are filed, each once.
    pub proof fn lemma_keys(&self)
        requires
            self.wf(),
        ensures
            self.spec_keys().no_duplicates(),
            forall|key: u64|
                self.spec_keys().contains(key) <==> (#[trigger] self.spec_slot(key)) is Some,
            forall|key: u64|
                (#[trigger] self.spec_slot(key)) is Some ==> self.spec_slot(key).unwrap().wf(),
    {
        let keys = self.spec_keys();
        assert forall|i: int, j: int| 0 <= i < j < keys.len() implies keys[i] != keys[j] by {
            assert(self.map[i].0 != self.map[j].0);
        }
        assert forall|key: u64| keys.contains(key) <==> (#[trigger] self.spec_slot(
            key,
        )) is Some by {
            if filed(self.map@, key) is Some {
                let i = lemma_filed_some(self.map@, key);
                assert(keys[i] == key);
            }
            if keys.contains(key) {
                let k = choose|k: int| 0 <= k < keys.len() && keys[k] == key;
                lemma_filed_at(self.map@, k);
            }
        }
        assert forall|key: u64| (#[trigger] self.spec_slot(key)) is Some implies self.spec_slot(
            key,
        ).unwrap().wf() by {
            let i = lemma_filed_some(self.map@, key);
            assert(self.map[i].1.wf());
        }
    }

    /// A storage in which no bean type was addressed yet.
    pub fn new() -> (map: Self)
        ensures
            map.wf(),
            map.spec_keys() == Seq::<u64>::empty(),
            forall|key: u64| (#[trigger] map.spec_slot(key)) is None,
    {
        let map = AutumnBeanMap { map: Vec::new() };
        proof {
            assert forall|key: u64| (#[trigger] map.spec_slot(key)) is None by {
                lemma_filed_none(map.map@, key);
            }
            assert(map.spec_keys() =~= Seq::<u64>::empty());
        }
        map
    }

    fn position(&self, key: u64) -> (at: Option<usize>)
        ensures
            match at {
                Some(i) => i < self.map.len() && self.map[i as int].0 == key,
                None => forall|i: int|
                    0 <= i < self.map.len() ==> (#[trigger] self.map@[i]).0 != key,
            },
    {
        let mut i: usize = 0;
        while i < self.map.len()
            invariant
                i <= self.map.len(),
                forall|k: int| 0 <= k < i ==> (#[trigger] self.map@[k]).0 != key,
            decreases self.map.len() - i,
        {
            if self.map[i].0 == key {
                return Some(i);
            }
            i += 1;
        }
        None
    }

    /// What is stored for the bean type with this key.
    pub fn get_by_id(&self, key: u64) -> (found: Option<&AutumnBeanMapValue<T>>)
        requires
            self.wf(),
        ensures
            match found {
                Some(slot) => self.spec_slot(key) == Some(*slot) && slot.wf(),
                None => self.spec_slot(key) is None,
            },
    {
        match self.position(key) {
            Some(i) => {
                proof {
                    lemma_filed_at(self.map@, i as int);
                }
                Some(&self.map[i].1)
            },
            None => {
                proof {
                    lemma_filed_none(self.map@, key);
                }
                None
            },
        }
    }

    /// What is stored for the bean type `B`.
    pub fn get<B: AutumnIdentified>(&self) -> (found: Option<&AutumnBeanMapValue<T>>)
        requires
            self.wf(),
        ensures
            match found {
                Some(slot) => self.spec_slot(B::IDENTIFIER) == Some(*slot) && slot.wf(),
                None => self.spec_slot(B::IDENTIFIER) is None,
            },
    {
        self.get_by_id(autumn_id::<B>())
    }

    /// What is stored for the bean type with this key, for the caller to
    /// change in place. A type that was never addressed gets an empty slot,
    /// filed after those that were.
    pub fn get_mut_by_id(&mut self, key: u64) -> (slot: &mut AutumnBeanMapValue<T>)
        requires
            old(self).wf(),
        ensures
            slot.wf(),
            match old(self).spec_slot(key) {
                Some(before) => *slot == before,
                None => forall|name: SlotName| (#[trigger] slot.spec_get(name)) is None,
            },
            final(slot).wf() ==> final(self).wf(),
            final(self).spec_slot(key) == Some(*final(slot)),
            forall|other: u64|
                other != key ==> (#[trigger] final(self).spec_slot(other)) == old(self).spec_slot(
                    other,
                ),
            final(self).spec_keys() == if old(self).spec_slot(key) is Some {
                old(self).spec_keys()
            } else {
                old(self).spec_keys().push(key)
            },
    {
        let at = match self.position(key) {
            Some(i) => {
                proof {
                    lemma_filed_at(self.map@, i as int);
                }
                i
            },
            None => {
                proof {
                    lemma_filed_none(self.map@, key);
                }
                self.map.push((key, AutumnBeanMapValue::new()));
                self.map.len() - 1
            },
        };
        let ghost was = self.map@;
        proof {
            assert forall|a: int, b: int| 0 <= a < b < was.len() implies (#[trigger] was[a]).0 != (
            #[trigger] was[b]).0 by {
                if b < old(self).map@.len() {
                    assert(old(self).map@[a].0 != old(self).map@[b].0);
                } else {
                    assert(old(self).map@[a].0 != key);
                }
            }
            assert forall|a: int| 0 <= a < was.len() implies (#[trigger] was[a]).1.wf() by {
                if a < old(self).map@.len() {
                    assert(old(self).map@[a].1.wf());
                }
            }
        }
        let entry = &mut self.map[at];
        let slot = &mut entry.1;
        proof {
            let now = was.update(at as int, (key, *final(slot)));
            assert forall|a: int, b: int| 0 <= a < b < now.len() implies (#[trigger] now[a]).0 != (
            #[trigger] now[b]).0 by {
                assert(was[a].0 != was[b].0);
            }
            assert(final(slot).wf() ==> forall|a: int|
                0 <= a < now.len() ==> (#[trigger] now[a]).1.wf()) by {
                if final(slot).wf() {
                    assert forall|a: int| 0 <= a < now.len() implies (#[trigger] now[a]).1.wf() by {
                        if a != at {
                            assert(was[a].1.wf());
                        }
                    }
                }
            }
            lemma_filed_at(now, at as int);
            assert forall|other: u64| other != key implies filed(now, other) == filed(
                old(self).map@,
                other,
            ) by {
                lemma_filed_elsewhere(now, old(self).map@, other);
            }
            let keys = Seq::new(now.len(), |i: int| now[i].0);
            if old(self).spec_slot(key) is Some {
                assert(keys =~= old(self).spec_keys());
            } else {
                assert(keys =~= old(self).spec_keys().push(key));
            }
        }
        slot
    }

    /// What is stored for the bean type `B`, for the caller to change in
    /// place. A type that was never addressed gets an empty slot.
    pub fn get_mut<B: AutumnIdentified>(&mut self) -> (slot: &mut AutumnBeanMapValue<T>)
        requires
            old(self).wf(),
        ensures
            slot.wf(),
            match old(self).spec_slot(B::IDENTIFIER) {
                Some(before) => *slot == before,
                None => forall|name: SlotName| (#[trigger] slot.spec_get(name)) is None,
            },
            final(slot).wf() ==> final(self).wf(),
            final(self).spec_slot(B::IDENTIFIER) == Some(*final(slot)),
            forall|other: u64|
                other != B::IDENTIFIER ==> (#[trigger] final(self).spec_slot(other))
                    == old(self).spec_slot(other),
            final(self).spec_keys() == if old(self).spec_slot(B::IDENTIFIER) is Some {
                old(self).spec_keys()
            } else {
                old(self).spec_keys().push(B::IDENTIFIER)
            },
    {
        self.get_mut_by_id(autumn_id::<B>())
    }

    /// The keys that were addressed, in the order of `spec_keys`.
    pub fn keys(&self) -> (list: Vec<u64>)
        ensures
            list@ == self.spec_keys(),
    {
        let mut list: Vec<u64> = Vec::new();
        let mut i: usize = 0;
        while i < self.map.len()
            invariant
                i <= self.map.len(),
                list@ == self.spec_keys().take(i as int),
            decreases self.map.len() - i,
        {
            list.push(self.map[i].0);
            assert(list@ =~= self.spec_keys().take(i + 1));
            i += 1;
        }
        assert(self.spec_keys().take(self.map.len() as int) =~= self.spec_keys());
        list
    }

    /// The occupied slots, in the order of `spec_entries`: a slot is listed
    /// if and only if it holds an entry.
    pub fn entries(&self) -> (list: Vec<(u64, Option<&'static str>)>)
        requires
            self.wf(),
        ensures
            slots_view(list@) == self.spec_entries(),
            forall|i: int|
                0 <= i < list@.len() ==> self.spec_entry(
                    (#[trigger] list@[i]).0,
                    name_view(list@[i].1),
                ) is Some,
            forall|key: u64, name: SlotName|
                (#[trigger] self.spec_entry(key, name)) is Some ==> lists(list@, key, name),
    {
        let mut list: Vec<(u64, Option<&'static str>)> = Vec::new();
        let mut i: usize = 0;
        proof {
            assert(self.map@.take(0) =~= Seq::empty());
            assert(slots_view(list@) =~= occupied(self.map@.take(0)));
        }
        while i < self.map.len()
            invariant
                self.wf(),
                i <= self.map.len(),
                slots_view(list@) == occupied(self.map@.take(i as int)),
                forall|k: int|
                    0 <= k < list@.len() ==> self.spec_entry(
                        (#[trigger] list@[k]).0,
                        name_view(list@[k].1),
                    ) is Some,
                forall|k: int, name: SlotName|
                    0 <= k < i && (#[trigger] self.map@[k].1.spec_get(name)) is Some ==> lists(
                        list@,
                        self.map@[k].0,
                        name,
                    ),
            decreases self.map.len() - i,
        {
            let key = self.map[i].0;
            let slot = &self.map[i].1;
            let names = slot.names();
            proof {
                lemma_filed_at(self.map@, i as int);
                assert(self.map@[i as int].1.wf());
                slot.lemma_names();
            }
            let mut j: usize = 0;
            proof {
                assert(slots_view(list@).add(slots_of(key, slot.spec_names().take(0)))
                    =~= slots_view(list@));
            }
            while j < names.len()
                invariant
                    self.wf(),
                    i < self.map.len(),
                    slots_view(list@) == occupied(self.map@.take(i as int)).add(
                        slots_of(key, slot.spec_names().take(j as int)),
                    ),
                    key == self.map@[i as int].0,
                    *slot == self.map@[i as int].1,
                    self.spec_slot(key) == Some(*slot),
                    j <= names.len(),
                    names@.len() == slot.spec_names().len(),
                    forall|k: int|
                        0 <= k < names@.len() ==> name_view(#[trigger] names@[k])
                            == slot.spec_names()[k],
                    forall|name: SlotName|
                        slot.spec_names().contains(name) <==> (#[trigger] slot.spec_get(
                            name,
                        )) is Some,
                    forall|k: int|
                        0 <= k < list@.len() ==> self.spec_entry(
                            (#[trigger] list@[k]).0,
                            name_view(list@[k].1),
                        ) is Some,
                    forall|k: int, name: SlotName|
                        0 <= k < i && (#[trigger] self.map@[k].1.spec_get(name)) is Some
                            ==> lists(list@, self.map@[k].0, name),
                    forall|k: int|
                        0 <= k < j ==> lists(list@, key, #[trigger] slot.spec_names()[k]),
                decreases names.len() - j,
            {
                let ghost before = list@;
                let added = (key, names[j]);
                list.push(added);
                proof {
                    assert(slots_view(list@) =~= slots_view(before).push(
                        (key, slot.spec_names()[j as int]),
                    ));
                    assert(slots_of(key, slot.spec_names().take(j + 1)) =~= slots_of(
                        key,
                        slot.spec_names().take(j as int),
                    ).push((key, slot.spec_names()[j as int])));
                    assert(slots_view(list@) =~= occupied(self.map@.take(i as int)).add(
                        slots_of(key, slot.spec_names().take(j + 1)),
                    ));
                    assert(slot.spec_names().contains(slot.spec_names()[j as int]));
                    assert forall|k: int, name: SlotName|
                        0 <= k < i && (#[trigger] self.map@[k].1.spec_get(
                            name,
                        )) is Some implies lists(list@, self.map@[k].0, name) by {
                        lemma_lists_push(before, added, self.map@[k].0, name);
                    }
                    assert forall|k: int| 0 <= k < j + 1 implies lists(
                        list@,
                        key,
                        #[trigger] slot.spec_names()[k],
                    ) by {
                        lemma_lists_push(before, added, key, slot.spec_names()[k]);
                    }
                }
                j += 1;
            }
            proof {
                assert(slot.spec_names().take(names@.len() as int) =~= slot.spec_names());
                assert(self.map@.take(i + 1).drop_last() =~= self.map@.take(i as int));
                assert(self.map@.take(i + 1).last() == self.map@[i as int]);
                assert forall|k: int, name: SlotName|
                    0 <= k < i + 1 && (#[trigger] self.map@[k].1.spec_get(
                        name,
                    )) is Some implies lists(list@, self.map@[k].0, name) by {
                    if k == i {
                        assert(slot.spec_names().contains(name));
                        let at = choose|at: int|
                            0 <= at < slot.spec_names().len() && slot.spec_names()[at] == name;
                        assert(lists(list@, key, slot.spec_names()[at]));
                    }
                }
            }
            i += 1;
        }
        proof {
            assert(self.map@.take(self.map@.len() as int) =~= self.map@);
            assert forall|key: u64, name: SlotName|
                (#[trigger] self.spec_entry(key, name)) is Some implies lists(
                list@,
                key,
                name,
            ) by {
                let at = lemma_filed_some(self.map@, key);
                assert(self.map@[at].1.spec_get(name) is Some);
            }
        }
        list
    }

    /// The entry stored for the bean type with this key under `name`.
    pub fn lookup(&self, key: u64, name: Option<&'static str>) -> (found: Option<&T>)
        requires
            self.wf(),
        ensures
            match found {
                Some(entry) => self.spec_entry(key, name_view(name)) == Some(*entry),
                None => self.spec_entry(key, name_view(name)) is None,
            },
    {
        match self.get_by_id(key) {
            Some(slot) => slot.get(name),
            None => None,
        }
    }

    /// Stores `value` for the bean type with this key under `name`, and hands
    /// back what was stored there before. A type that was never addressed is
    /// filed after those that were.
    pub fn store(&mut self, key: u64, name: Option<&'static str>, value: T) -> (before: Option<T>)
        requires
            old(self).wf(),
        ensures
            final(self).wf(),
            before == old(self).spec_entry(key, name_view(name)),
            final(self).spec_entry(key, name_view(name)) == Some(value),
            forall|k: u64, n: SlotName|
                (k != key || n != name_view(name)) ==> (#[trigger] final(self).spec_entry(k, n))
                    == old(self).spec_entry(k, n),
            final(self).spec_keys() == if old(self).spec_slot(key) is Some {
                old(self).spec_keys()
            } else {
                old(self).spec_keys().push(key)
            },
    {
        let slot = self.get_mut_by_id(key);
        slot.insert(name, value)
    }

    /// Takes the entry stored for the bean type with this key under `name` out
    /// of the storage.
    pub fn take(&mut self, key: u64, name: Option<&'static str>) -> (taken: Option<T>)
        requires
            old(self).wf(),
        ensures
            final(self).wf(),
            taken == old(self).spec_entry(key, name_view(name)),
            final(self).spec_entry(key, name_view(name)) is None,
            forall|k: u64, n: SlotName|
                (k != key || n != name_view(name)) ==> (#[trigger] final(self).spec_entry(k, n))
                    == old(self).spec_entry(k, n),
            taken is None ==> *final(self) == *old(self),
            final(self).spec_keys() == old(self).spec_keys(),
    {
        let stored = match self.get_by_id(key) {
            Some(slot) => slot.get(name).is_some(),
            None => false,
        };
        if stored {
            let slot = self.get_mut_by_id(key);
            slot.remove(name)
        } else {
            None
        }
    }
}

impl<T> Default for AutumnBeanMapValue<T> {
    /// A slot that holds nothing.
    fn default() -> (slot: Self)
        ensures
            slot.wf(),
            slot.spec_names() == Seq::<SlotName>::empty(),
            forall|name: SlotName| (#[trigger] slot.spec_get(name)) is None,
    {
        AutumnBeanMapValue::new()
    }
}

impl<T> Default for AutumnBeanMap<T> {
    /// A storage in which no bean type was addressed yet.
    fn default() -> (map: Self)
        ensures
            map.wf(),
            map.spec_keys() == Seq::<u64>::empty(),
            forall|key: u64| (#[trigger] map.spec_slot(key)) is None,
    {
        AutumnBeanMap::new()
    }
}

} // verus!
