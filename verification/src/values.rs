//! The values mapping: an association from placeholder names to replacement
//! text, viewed in specifications as a `Map` from character sequences to
//! character sequences. A later insertion of a name overrides an earlier one,
//! and lookups go by name alone, never by position in the mapping.

use vstd::prelude::*;

verus! {

/// The mapping described by a sequence of entries, later entries overriding
/// earlier ones.
pub open spec fn entries_map(s: Seq<(String, String)>) -> Map<Seq<char>, Seq<char>>
    decreases s.len(),
{
    if s.len() == 0 {
        Map::empty()
    } else {
        entries_map(s.drop_last()).insert(s.last().0@, s.last().1@)
    }
}

/// The text contains no opening brace.
pub open spec fn text_brace_free(s: Seq<char>) -> bool {
    forall|j: int| 0 <= j < s.len() ==> s[j] != '{'
}

/// Every replacement text in the mapping is free of opening braces.
pub open spec fn values_brace_free(m: Map<Seq<char>, Seq<char>>) -> bool {
    forall|k: Seq<char>| #[trigger] m.contains_key(k) ==> text_brace_free(m[k])
}

/// An association from placeholder names to replacement text.
pub struct ValueMap {
    entries: Vec<(String, String)>,
}

impl View for ValueMap {
    type V = Map<Seq<char>, Seq<char>>;

    closed spec fn view(&self) -> Map<Seq<char>, Seq<char>> {
        entries_map(self.entries@)
    }
}

/// In a mapping whose entries beyond position `i` never use the key `k`,
/// an entry for `k` at position `i` decides the lookup of `k`.
proof fn lemma_entries_map_found(s: Seq<(String, String)>, k: Seq<char>, i: int)
    requires
        0 <= i < s.len(),
        s[i].0@ == k,
        forall|j: int| i < j < s.len() ==> s[j].0@ != k,
    ensures
        entries_map(s).contains_key(k),
        entries_map(s)[k] == s[i].1@,
    decreases s.len(),
{
    if i == s.len() - 1 {
    } else {
        assert(s.last().0@ != k);
        lemma_entries_map_found(s.drop_last(), k, i);
    }
}

/// A mapping whose entries never use the key `k` does not contain `k`.
proof fn lemma_entries_map_absent(s: Seq<(String, String)>, k: Seq<char>)
    requires
        forall|j: int| 0 <= j < s.len() ==> s[j].0@ != k,
    ensures
        !entries_map(s).contains_key(k),
    decreases s.len(),
{
    if s.len() > 0 {
        assert(s.last().0@ != k);
        lemma_entries_map_absent(s.drop_last(), k);
    }
}

/// A value of the mapping is the replacement text of one of its entries.
proof fn lemma_entries_map_values(s: Seq<(String, String)>, k: Seq<char>)
    requires
        entries_map(s).contains_key(k),
    ensures
        exists|j: int| 0 <= j < s.len() && entries_map(s)[k] == #[trigger] s[j].1@,
    decreases s.len(),
{
    if s.len() > 0 {
        if s.last().0@ == k {
            assert(0 <= s.len() - 1 < s.len() && entries_map(s)[k] == s[s.len() - 1].1@);
        } else {
            lemma_entries_map_values(s.drop_last(), k);
            let j = choose|j: int|
                0 <= j < s.drop_last().len() && entries_map(s.drop_last())[k] == #[trigger] s
                    .drop_last()[j].1@;
            assert(0 <= j < s.len() && entries_map(s)[k] == s[j].1@);
        }
    }
}

/// Whether the text holds no opening brace.
fn text_has_no_brace(s: &str) -> (b: bool)
    ensures
        b == text_brace_free(s@),
{
    let n = s.unicode_len();
    let mut i: usize = 0;
    while i < n
        invariant
            i <= n,
            n == s@.len(),
            forall|j: int| 0 <= j < i ==> s@[j] != '{',
        decreases n - i,
    {
        if s.get_char(i) == '{' {
            assert(!text_brace_free(s@)) by {
                assert(s@[i as int] == '{');
            }
            return false;
        }
        i = i + 1;
    }
    true
}

impl ValueMap {
    /// An empty mapping.
    pub fn new() -> (m: ValueMap)
        ensures
            m@ == Map::<Seq<char>, Seq<char>>::empty(),
    {
        ValueMap { entries: Vec::new() }
    }

    /// Associate `key` with `value`, overriding any earlier association.
    pub fn insert(&mut self, key: String, value: String)
        ensures
            final(self)@ == old(self)@.insert(key@, value@),
    {
        let ghost before = self.entries@;
        self.entries.push((key, value));
        proof {
            assert(self.entries@.drop_last() =~= before);
        }
    }

    /// Every replacement text held in the mapping's entries is free of
    /// opening braces.
    pub closed spec fn entries_brace_free(&self) -> bool {
        forall|j: int| 0 <= j < self.entries@.len() ==> text_brace_free(#[trigger] self.entries@[j].1@)
    }

    /// Whether every replacement text held by the mapping is free of opening
    /// braces; when every one is, rendering with this mapping always halts.
    pub fn brace_free(&self) -> (b: bool)
        ensures
            b == self.entries_brace_free(),
            b ==> values_brace_free(self@),
    {
        let mut i: usize = 0;
        while i < self.entries.len()
            invariant
                i <= self.entries.len(),
                forall|j: int| 0 <= j < i ==> text_brace_free(#[trigger] self.entries@[j].1@),
            decreases self.entries.len() - i,
        {
            if !text_has_no_brace(self.entries[i].1.as_str()) {
                return false;
            }
            i = i + 1;
        }
        proof {
            assert forall|k: Seq<char>| #[trigger] self@.contains_key(k) implies text_brace_free(
                self@[k],
            ) by {
                lemma_entries_map_values(self.entries@, k);
            }
        }
        true
    }

    /// The replacement text associated with `key`, if any.
    pub fn get(&self, key: &str) -> (r: Option<&String>)
        ensures
            match r {
                Some(v) => self@.contains_key(key@) && v@ == self@[key@],
                None => !self@.contains_key(key@),
            },
    {
        let owned: String = key.to_owned();
        let n = self.entries.len();
        let mut i: usize = n;
        while i > 0
            invariant
                i <= n,
                n == self.entries.len(),
                owned@ == key@,
                forall|j: int| i <= j < n ==> self.entries@[j].0@ != key@,
            decreases i,
        {
            i = i - 1;
            if self.entries[i].0 == owned {
                proof {
                    lemma_entries_map_found(self.entries@, key@, i as int);
                }
                return Some(&self.entries[i].1);
            }
        }
        proof {
            lemma_entries_map_absent(self.entries@, key@);
        }
        None
    }
}

} // verus!
