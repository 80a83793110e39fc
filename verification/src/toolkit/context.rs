//! Named values passed between nodes.
use vstd::prelude::*;

verus! {

/// A value held in a [`Context`].
#[derive(Debug, Clone, Copy, PartialEq, Eq, Structural)]
pub enum ContextValues {
    Usize(usize),
}

impl From<usize> for ContextValues {
    fn from(value: usize) -> (r: ContextValues) {
        ContextValues::Usize(value)
    }
}

impl vstd::std_specs::convert::FromSpecImpl<usize> for ContextValues {
    open spec fn obeys_from_spec() -> bool {
        true
    }

    open spec fn from_spec(v: usize) -> ContextValues {
        ContextValues::Usize(v)
    }
}

/// Values by name; a name holds at most one value.
#[derive(Debug)]
pub struct Context {
    inner: Vec<(String, ContextValues)>,
}

/// The entries of `s` as a map from name to value, later entries winning.
pub open spec fn entries_map(s: Seq<(String, ContextValues)>) -> Map<Seq<char>, ContextValues>
    decreases s.len(),
{
    if s.len() == 0 {
        Map::empty()
    } else {
        entries_map(s.drop_last()).insert(s.last().0@, s.last().1)
    }
}

impl View for Context {
    type V = Map<Seq<char>, ContextValues>;

    closed spec fn view(&self) -> Map<Seq<char>, ContextValues> {
        entries_map(self.inner@)
    }
}

/// The number held for `key` in `m`, if any.
pub open spec fn lookup(m: Map<Seq<char>, ContextValues>, key: Seq<char>) -> Option<usize> {
    if m.contains_key(key) {
        match m[key] {
            ContextValues::Usize(v) => Some(v),
        }
    } else {
        None
    }
}

/// No name occurs in two entries.
pub open spec fn unique_names(s: Seq<(String, ContextValues)>) -> bool {
    forall|i: int, j: int| 0 <= i < j < s.len() ==> s[i].0@ != s[j].0@
}

/// Where names are unique, the entry at `i` is what the map holds for its name.
proof fn lemma_entry_in_map(s: Seq<(String, ContextValues)>, i: int)
    requires
        unique_names(s),
        0 <= i < s.len(),
    ensures
        entries_map(s).contains_key(s[i].0@),
        entries_map(s)[s[i].0@] == s[i].1,
    decreases s.len(),
{
    if i < s.len() - 1 {
        let t = s.drop_last();
        assert(t[i] == s[i]);
        lemma_entry_in_map(t, i);
    }
}

/// A name that no entry holds is not in the map.
proof fn lemma_absent(s: Seq<(String, ContextValues)>, k: Seq<char>)
    requires
        forall|i: int| 0 <= i < s.len() ==> s[i].0@ != k,
    ensures
        !entries_map(s).contains_key(k),
    decreases s.len(),
{
    if s.len() > 0 {
        let t = s.drop_last();
        assert forall|i: int| 0 <= i < t.len() implies t[i].0@ != k by {
            assert(t[i] == s[i]);
        }
        lemma_absent(t, k);
    }
}

/// Replacing the value of the entry at `i` replaces it in the map.
proof fn lemma_update_entry(s: Seq<(String, ContextValues)>, i: int, n: String, v: ContextValues)
    requires
        unique_names(s),
        0 <= i < s.len(),
        n@ == s[i].0@,
    ensures
        entries_map(s.update(i, (n, v))) == entries_map(s).insert(n@, v),
        unique_names(s.update(i, (n, v))),
    decreases s.len(),
{
    let u = s.update(i, (n, v));
    if i == s.len() - 1 {
        assert(u.drop_last() =~= s.drop_last());
        lemma_absent(s.drop_last(), s[i].0@);
        assert(entries_map(u) =~= entries_map(s).insert(n@, v));
    } else {
        let t = s.drop_last();
        assert(t[i] == s[i]);
        lemma_update_entry(t, i, n, v);
        assert(u.drop_last() =~= t.update(i, (n, v)));
        assert(s.last().0@ != s[i].0@);
        assert(entries_map(u) =~= entries_map(s).insert(n@, v));
    }
}

impl Context {
    /// The names are unique.
    #[verifier::type_invariant]
    spec fn wf(&self) -> bool {
        unique_names(self.inner@)
    }

    /// An empty context.
    pub fn new() -> (r: Context)
        ensures
            r@ == Map::<Seq<char>, ContextValues>::empty(),
    {
        Context { inner: Vec::new() }
    }

    /// Sets the value of `key` to `value`, replacing any value it held.
    pub fn add(&mut self, key: &str, value: usize)
        ensures
            final(self)@ == old(self)@.insert(key@, ContextValues::Usize(value)),
    {
        let v = ContextValues::Usize(value);
        let name = String::from_str(key);
        proof {
            use_type_invariant(&*self);
        }
        let ghost s = self.inner@;
        let mut i: usize = 0;
        while i < self.inner.len()
            invariant
                unique_names(s),
                self.inner@ == s,
                name@ == key@,
                i <= s.len(),
                forall|j: int| 0 <= j < i ==> s[j].0@ != key@,
            ensures
                i < s.len() ==> s[i as int].0@ == key@,
                self.inner@ == s,
                name@ == key@,
                i <= s.len(),
                forall|j: int| 0 <= j < i ==> s[j].0@ != key@,
            decreases s.len() - i,
        {
            if self.inner[i].0.eq(&name) {
                break;
            }
            i = i + 1;
        }
        let mut inner: Vec<(String, ContextValues)> = Vec::new();
        std::mem::swap(&mut inner, &mut self.inner);
        if i < inner.len() {
            let ghost n = name;
            inner.set(i, (name, v));
            proof {
                assert(inner@ =~= s.update(i as int, (n, v)));
                lemma_update_entry(s, i as int, n, v);
            }
        } else {
            inner.push((name, v));
            proof {
                assert(inner@.drop_last() =~= s);
            }
        }
        self.inner = inner;
    }

    /// The value of `key`, if it holds one.
    pub fn get_usize_value(&self, key: &str) -> (r: Option<usize>)
        ensures
            r == lookup(self@, key@),
    {
        proof {
            use_type_invariant(self);
        }
        let name = String::from_str(key);
        let mut i: usize = 0;
        while i < self.inner.len()
            invariant
                unique_names(self.inner@),
                name@ == key@,
                i <= self.inner@.len(),
                forall|j: int| 0 <= j < i ==> self.inner@[j].0@ != key@,
            decreases self.inner@.len() - i,
        {
            if self.inner[i].0.eq(&name) {
                proof {
                    lemma_entry_in_map(self.inner@, i as int);
                }
                let ContextValues::Usize(v) = self.inner[i].1;
                return Some(v);
            }
            i = i + 1;
        }
        proof {
            lemma_absent(self.inner@, key@);
        }
        None
    }
}

impl Default for Context {
    fn default() -> (r: Context)
        ensures
            r@ == Map::<Seq<char>, ContextValues>::empty(),
    {
        Context::new()
    }
}

/// Reading a name gives back the number last set for it, and setting one name leaves what
/// reading any other name gives unchanged.
pub proof fn law_read_after_add(before: Map<Seq<char>, ContextValues>, key: Seq<char>, value: usize, other: Seq<char>)
    ensures
        lookup(before.insert(key, ContextValues::Usize(value)), key) == Some(value),
        other != key ==> lookup(before.insert(key, ContextValues::Usize(value)), other) == lookup(
            before,
            other,
        ),
{
}

/// A new context holds no names.
pub proof fn law_empty_reads_nothing(key: Seq<char>)
    ensures
        lookup(Map::empty(), key) is None,
{
}

} // verus!
