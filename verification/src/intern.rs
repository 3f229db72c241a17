//! String interner that hands out compact [`Symbol`] handles.
//!
//! [`Interner`] deduplicates owned `String` storage: every call to
//! [`Interner::intern`] returns the same [`Symbol`] for the same input. The
//! interner is described by the sequence of distinct strings it holds, in
//! the order they were first interned; a symbol is a position in it.

use vstd::prelude::*;

use crate::error::{Error, Result};
use crate::str_table::{
    table_contains, table_entries, table_get, table_insert, table_new, table_with_capacity,
    StrTable,
};

verus! {

/// Compact handle returned by [`Interner::intern`].
///
/// Two symbols from the same interner are equal if and only if the strings
/// they refer to were interned from identical inputs.
#[derive(Copy, Clone, Debug, PartialEq, Eq, Hash, PartialOrd, Ord, Structural)]
pub struct Symbol(u32);

impl View for Symbol {
    type V = u32;

    closed spec fn view(&self) -> u32 {
        self.0
    }
}

impl Symbol {
    /// Returns the underlying numeric identifier.
    pub fn id(self) -> (r: u32)
        ensures
            r == self@,
    {
        self.0
    }

    /// Two symbols are the same symbol exactly when they have the same id.
    pub proof fn lemma_view_injective(a: Symbol, b: Symbol)
        ensures
            a@ == b@ <==> a == b,
    {
    }
}

/// The id that interning `s` into an interner holding `m` yields: the
/// position of `s` when it is already held, else the next position.
pub open spec fn intern_id(m: Seq<Seq<char>>, s: Seq<char>) -> int {
    if m.contains(s) {
        m.index_of(s)
    } else {
        m.len() as int
    }
}

/// The strings held after interning `s` into an interner holding `m`.
pub open spec fn after_intern(m: Seq<Seq<char>>, s: Seq<char>) -> Seq<Seq<char>> {
    if m.contains(s) {
        m
    } else {
        m.push(s)
    }
}

/// Interning `s` can be represented: `s` is already held, or a new id still
/// fits in a `u32`.
pub open spec fn can_intern(m: Seq<Seq<char>>, s: Seq<char>) -> bool {
    m.contains(s) || m.len() <= u32::MAX
}

/// The strings held after interning each of `inputs`, in order, into an
/// interner holding `m`.
pub open spec fn intern_all(m: Seq<Seq<char>>, inputs: Seq<Seq<char>>) -> Seq<Seq<char>>
    decreases inputs.len(),
{
    if inputs.len() == 0 {
        m
    } else {
        after_intern(intern_all(m, inputs.drop_last()), inputs.last())
    }
}

/// Interning adds `s` to the held strings at most once: the result holds
/// `s`, its strings stay distinct, and interning `s` again changes nothing
/// and yields the same symbol.
pub proof fn lemma_intern_idempotent(m: Seq<Seq<char>>, s: Seq<char>)
    requires
        m.no_duplicates(),
        m.len() <= u32::MAX as int + 1,
        can_intern(m, s),
    ensures
        after_intern(m, s).no_duplicates(),
        after_intern(m, s).contains(s),
        can_intern(after_intern(m, s), s),
        after_intern(after_intern(m, s), s) == after_intern(m, s),
        intern_id(after_intern(m, s), s) == intern_id(m, s),
{
    lemma_intern_resolves(m, s);
}

/// Resolving the symbol that interning `s` yields gives back `s`, and the
/// symbol's id fits in a `u32`.
pub proof fn lemma_intern_resolves(m: Seq<Seq<char>>, s: Seq<char>)
    requires
        m.no_duplicates(),
        m.len() <= u32::MAX as int + 1,
        can_intern(m, s),
    ensures
        0 <= intern_id(m, s) < after_intern(m, s).len(),
        intern_id(m, s) <= u32::MAX,
        after_intern(m, s)[intern_id(m, s)] == s,
        after_intern(m, s).no_duplicates(),
        after_intern(m, s).contains(s),
        intern_id(after_intern(m, s), s) == intern_id(m, s),
{
    let a = after_intern(m, s);
    if m.contains(s) {
        let i = m.index_of(s);
        assert(0 <= i < m.len() && m[i] == s);
    } else {
        assert(a[m.len() as int] == s);
        assert(a.no_duplicates()) by {
            assert forall|x: int, y: int| 0 <= x < a.len() && 0 <= y < a.len() && x != y
                implies a[x] != a[y] by {
                if x < m.len() && y < m.len() {
                    assert(m[x] != m[y]);
                } else if x < m.len() {
                    assert(m[x] != s);
                } else {
                    assert(m[y] != s);
                }
            }
        }
        assert(a.contains(s));
        let j = a.index_of(s);
        assert(a[j] == s);
        assert(j == m.len());
    }
}

/// Interning never changes the strings already held, so every symbol
/// issued earlier keeps resolving to the same string.
pub proof fn lemma_intern_keeps_earlier(m: Seq<Seq<char>>, s: Seq<char>, i: int)
    requires
        0 <= i < m.len(),
    ensures
        i < after_intern(m, s).len(),
        after_intern(m, s)[i] == m[i],
{
}

/// Two different strings interned one after the other get different
/// symbols, and the first keeps its symbol.
pub proof fn lemma_distinct_strings_distinct_symbols(
    m: Seq<Seq<char>>,
    s: Seq<char>,
    t: Seq<char>,
)
    requires
        m.no_duplicates(),
        m.len() <= u32::MAX as int + 1,
        s != t,
        can_intern(m, s),
        can_intern(after_intern(m, s), t),
    ensures
        intern_id(after_intern(m, s), t) != intern_id(m, s),
        intern_id(after_intern(after_intern(m, s), t), s) == intern_id(m, s),
{
    let a = after_intern(m, s);
    lemma_intern_resolves(m, s);
    lemma_intern_resolves(a, t);
    let b = after_intern(a, t);
    let k = intern_id(m, s);
    assert(b[k] == s);
    let j = b.index_of(s);
    assert(b.contains(s));
    assert(b[j] == s);
}

/// Interning a sequence of inputs leaves the interner holding each distinct
/// string once: the held strings are exactly those held before together with
/// the inputs, so from empty its length is the number of distinct inputs.
pub proof fn lemma_intern_all_counts_distinct(m: Seq<Seq<char>>, inputs: Seq<Seq<char>>)
    requires
        m.no_duplicates(),
        (m.to_set() + inputs.to_set()).len() <= u32::MAX as int + 1,
    ensures
        intern_all(m, inputs).no_duplicates(),
        intern_all(m, inputs).to_set() == m.to_set() + inputs.to_set(),
        intern_all(m, inputs).len() == (m.to_set() + inputs.to_set()).len(),
    decreases inputs.len(),
{
    let full = m.to_set() + inputs.to_set();
    if inputs.len() == 0 {
        assert(inputs.to_set() =~= Set::<Seq<char>>::empty());
        assert(full =~= m.to_set());
        m.unique_seq_to_set();
    } else {
        let rest = inputs.drop_last();
        let s = inputs.last();
        assert(inputs.to_set() =~= rest.to_set().insert(s)) by {
            assert(inputs =~= rest.push(s));
            assert forall|x: Seq<char>| inputs.to_set().contains(x) implies rest.to_set().insert(
                s,
            ).contains(x) by {
                let k = choose|k: int| 0 <= k < inputs.len() && inputs[k] == x;
                if k < rest.len() {
                    assert(rest[k] == x);
                }
            }
            assert forall|x: Seq<char>| rest.to_set().insert(s).contains(x) implies inputs.to_set().contains(
                x,
            ) by {
                if x == s {
                    assert(inputs[inputs.len() - 1] == x);
                } else {
                    let k = choose|k: int| 0 <= k < rest.len() && rest[k] == x;
                    assert(inputs[k] == x);
                }
            }
        }
        let part = m.to_set() + rest.to_set();
        vstd::set_lib::lemma_set_union_finite_iff(m.to_set(), inputs.to_set());
        assert(part.subset_of(full));
        vstd::set_lib::lemma_len_subset(part, full);
        lemma_intern_all_counts_distinct(m, rest);
        let p = intern_all(m, rest);
        p.unique_seq_to_set();
        assert(can_intern(p, s)) by {
            if !p.contains(s) {
                assert(!part.contains(s));
                assert(part.insert(s).subset_of(full));
                vstd::set_lib::lemma_len_subset(part.insert(s), full);
            }
        }
        lemma_intern_resolves(p, s);
        let a = after_intern(p, s);
        assert(a.to_set() =~= full) by {
            if !p.contains(s) {
                assert(a =~= p.push(s));
                assert forall|x: Seq<char>| a.to_set().contains(x) implies full.contains(x) by {
                    let k = choose|k: int| 0 <= k < a.len() && a[k] == x;
                    if k < p.len() {
                        assert(p[k] == x);
                        assert(p.to_set().contains(x));
                    }
                }
                assert forall|x: Seq<char>| full.contains(x) implies a.to_set().contains(x) by {
                    if x != s {
                        assert(part.contains(x));
                        assert(p.to_set().contains(x));
                        let k = choose|k: int| 0 <= k < p.len() && p[k] == x;
                        assert(a[k] == x);
                    } else {
                        assert(a[p.len() as int] == x);
                    }
                }
            } else {
                assert forall|x: Seq<char>| full.contains(x) implies a.to_set().contains(x) by {
                    if x != s {
                        assert(part.contains(x));
                        assert(p.to_set().contains(x));
                    } else {
                        assert(p.to_set().contains(x));
                    }
                }
                assert forall|x: Seq<char>| a.to_set().contains(x) implies full.contains(x) by {
                    assert(p.to_set().contains(x));
                }
            }
        }
        a.unique_seq_to_set();
    }
}

/// Interning any further inputs never changes the strings already held:
/// every position held before holds the same string afterwards.
pub proof fn lemma_intern_all_keeps_earlier(m: Seq<Seq<char>>, inputs: Seq<Seq<char>>, i: int)
    requires
        0 <= i < m.len(),
    ensures
        i < intern_all(m, inputs).len(),
        intern_all(m, inputs)[i] == m[i],
    decreases inputs.len(),
{
    if inputs.len() > 0 {
        lemma_intern_all_keeps_earlier(m, inputs.drop_last(), i);
        lemma_intern_keeps_earlier(intern_all(m, inputs.drop_last()), inputs.last(), i);
    }
}

/// After interning a sequence of inputs the interner holds `s` exactly when
/// it held `s` before or `s` is one of the inputs.
pub proof fn lemma_intern_all_holds(m: Seq<Seq<char>>, inputs: Seq<Seq<char>>, s: Seq<char>)
    ensures
        intern_all(m, inputs).contains(s) <==> m.contains(s) || inputs.contains(s),
    decreases inputs.len(),
{
    if inputs.len() > 0 {
        let rest = inputs.drop_last();
        let p = intern_all(m, rest);
        lemma_intern_all_holds(m, rest, s);
        let a = after_intern(p, inputs.last());
        if !p.contains(inputs.last()) {
            assert(a =~= p.push(inputs.last()));
            if a.contains(s) && s != inputs.last() {
                let k = choose|k: int| 0 <= k < a.len() && a[k] == s;
                assert(p[k] == s);
            }
            if p.contains(s) {
                let k = choose|k: int| 0 <= k < p.len() && p[k] == s;
                assert(a[k] == s);
            }
            if s == inputs.last() {
                assert(a[p.len() as int] == s);
            }
        }
        if inputs.contains(s) && s != inputs.last() {
            let k = choose|k: int| 0 <= k < inputs.len() && inputs[k] == s;
            assert(rest[k] == s);
        }
        if rest.contains(s) {
            let k = choose|k: int| 0 <= k < rest.len() && rest[k] == s;
            assert(inputs[k] == s);
        }
        if s == inputs.last() {
            assert(inputs[inputs.len() - 1] == s);
        }
    }
}

/// A symbol keeps resolving to its string whatever is interned afterwards:
/// the position that interning `s` yields holds `s` after any further inputs.
pub proof fn lemma_symbol_resolves_forever(
    m: Seq<Seq<char>>,
    s: Seq<char>,
    more: Seq<Seq<char>>,
)
    requires
        m.no_duplicates(),
        m.len() <= u32::MAX as int + 1,
        can_intern(m, s),
    ensures
        0 <= intern_id(m, s) < intern_all(after_intern(m, s), more).len(),
        intern_all(after_intern(m, s), more)[intern_id(m, s)] == s,
{
    lemma_intern_resolves(m, s);
    lemma_intern_all_keeps_earlier(after_intern(m, s), more, intern_id(m, s));
}

/// String interner. See the module documentation.
pub struct Interner {
    storage: Vec<String>,
    lookup: StrTable,
}

impl View for Interner {
    type V = Seq<Seq<char>>;

    closed spec fn view(&self) -> Seq<Seq<char>> {
        self.storage@.map_values(|s: String| s@)
    }
}

impl Interner {
    /// The hash index holds exactly the stored strings, each under its
    /// position; the stored strings are distinct and their positions fit in
    /// a `u32`.
    pub closed spec fn wf(&self) -> bool {
        &&& self@.len() <= u32::MAX as int + 1
        &&& self@.no_duplicates()
        &&& forall|k: Seq<char>|
            #[trigger] table_entries(self.lookup).contains_key(k) <==> self@.contains(k)
        &&& forall|i: int|
            0 <= i < self@.len() ==> table_entries(self.lookup)[#[trigger] self@[i]] == i
    }

    /// A well-formed interner holds distinct strings.
    pub proof fn lemma_model_wf(&self)
        requires
            self.wf(),
        ensures
            self@.no_duplicates(),
            self@.len() <= u32::MAX as int + 1,
    {
    }

    /// Creates an empty interner that performs no allocation up front.
    pub fn new() -> (r: Self)
        ensures
            r.wf(),
            r@ == Seq::<Seq<char>>::empty(),
    {
        let r = Interner { storage: Vec::new(), lookup: table_new() };
        proof {
            assert(r@ =~= Seq::<Seq<char>>::empty());
        }
        r
    }

    /// Creates an empty interner with storage pre-reserved for `capacity`
    /// distinct strings.
    pub fn with_capacity(capacity: usize) -> (r: Self)
        requires
            capacity <= usize::MAX / 256,
        ensures
            r.wf(),
            r@ == Seq::<Seq<char>>::empty(),
    {
        let r = Interner { storage: Vec::with_capacity(capacity), lookup: table_with_capacity(capacity) };
        proof {
            assert(r@ =~= Seq::<Seq<char>>::empty());
        }
        r
    }

    /// Number of distinct strings currently interned.
    pub fn len(&self) -> (r: usize)
        requires
            self.wf(),
        ensures
            r == self@.len(),
    {
        self.storage.len()
    }

    /// Returns `true` if the interner holds no strings.
    pub fn is_empty(&self) -> (r: bool)
        requires
            self.wf(),
        ensures
            r == (self@.len() == 0),
    {
        self.storage.is_empty()
    }

    /// Interns `s` and returns its [`Symbol`].
    ///
    /// Interning when the symbol counter would overflow is a caller error,
    /// excluded by the precondition. Use [`Interner::try_intern`] for the
    /// fallible variant.
    pub fn intern(&mut self, s: &str) -> (sym: Symbol)
        requires
            old(self).wf(),
            can_intern(old(self)@, s@),
        ensures
            final(self).wf(),
            sym@ == intern_id(old(self)@, s@),
            final(self)@ == after_intern(old(self)@, s@),
    {
        match self.try_intern(s) {
            Ok(sym) => sym,
            Err(_) => {
                proof {
                    assert(false);
                }
                Symbol(0)
            },
        }
    }

    /// Interns `s`, returning a [`Symbol`] on success or
    /// [`Error::CounterOverflow`] if the interner cannot represent more
    /// distinct strings.
    pub fn try_intern(&mut self, s: &str) -> (r: Result<Symbol>)
        requires
            old(self).wf(),
        ensures
            final(self).wf(),
            r is Ok <==> can_intern(old(self)@, s@),
            r matches Ok(sym) ==> sym@ == intern_id(old(self)@, s@) && final(self)@
                == after_intern(old(self)@, s@),
            r matches Err(e) ==> e == Error::CounterOverflow && final(self)@ == old(self)@,
    {
        let ghost m = self@;
        if let Some(id) = table_get(&self.lookup, s) {
            proof {
                assert(m.contains(s@));
                let i = choose|i: int| 0 <= i < m.len() && m[i] == s@;
                assert(table_entries(self.lookup)[m[i]] == i);
                assert(m.index_of(s@) == i);
            }
            return Ok(Symbol(id));
        }
        let id_usize = self.storage.len();
        if id_usize > u32::MAX as usize {
            return Err(Error::CounterOverflow);
        }
        let id = id_usize as u32;
        let owned = s.to_owned();
        self.storage.push(owned.clone());
        let _ = table_insert(&mut self.lookup, owned, id);
        proof {
            assert(!m.contains(s@));
            assert(self@ =~= m.push(s@));
            assert forall|k: Seq<char>|
                #[trigger] table_entries(self.lookup).contains_key(k) <==> self@.contains(k) by {
                if k == s@ {
                    assert(self@[m.len() as int] == k);
                } else if m.contains(k) {
                    let i = choose|i: int| 0 <= i < m.len() && m[i] == k;
                    assert(self@[i] == k);
                } else if self@.contains(k) {
                    let i = choose|i: int| 0 <= i < self@.len() && self@[i] == k;
                    assert(i < m.len());
                    assert(m[i] == k);
                }
            }
            assert forall|i: int|
                0 <= i < self@.len() implies table_entries(self.lookup)[#[trigger] self@[i]]
                == i by {
                if i < m.len() {
                    assert(m[i] != s@);
                    assert(self@[i] == m[i]);
                }
            }
        }
        Ok(Symbol(id))
    }

    /// Returns the interned string for `symbol`, or `None` if no string was
    /// interned under it.
    pub fn resolve(&self, symbol: Symbol) -> (r: Option<&str>)
        requires
            self.wf(),
        ensures
            r is Some <==> (symbol@ as int) < self@.len(),
            r matches Some(x) ==> x@ == self@[symbol@ as int],
    {
        let i = symbol.0 as usize;
        if i < self.storage.len() {
            Some(self.storage[i].as_str())
        } else {
            None
        }
    }

    /// Returns `true` if `s` has already been interned.
    pub fn contains(&self, s: &str) -> (r: bool)
        requires
            self.wf(),
        ensures
            r == self@.contains(s@),
    {
        table_contains(&self.lookup, s)
    }

    /// Returns the symbol previously assigned to `s`, without inserting a new
    /// entry if the string is unknown.
    pub fn lookup(&self, s: &str) -> (r: Option<Symbol>)
        requires
            self.wf(),
        ensures
            r is Some <==> self@.contains(s@),
            r matches Some(sym) ==> sym@ == intern_id(self@, s@),
    {
        match table_get(&self.lookup, s) {
            Some(id) => {
                proof {
                    let i = choose|i: int| 0 <= i < self@.len() && self@[i] == s@;
                    assert(table_entries(self.lookup)[self@[i]] == i);
                }
                Some(Symbol(id))
            },
            None => None,
        }
    }

    /// Returns a cursor over `(Symbol, &str)` pairs for every interned
    /// string, in insertion order.
    pub fn iter(&self) -> (r: Iter<'_>)
        requires
            self.wf(),
        ensures
            r.strings() == self@,
            r.position() == 0,
    {
        Iter { storage: &self.storage, next: 0 }
    }
}

impl Default for Interner {
    /// An empty interner, as [`Interner::new`].
    fn default() -> (r: Self)
        ensures
            r.wf(),
            r@ == Seq::<Seq<char>>::empty(),
    {
        Self::new()
    }
}

/// Cursor over `(Symbol, &str)` pairs returned by [`Interner::iter`].
pub struct Iter<'a> {
    storage: &'a Vec<String>,
    next: usize,
}

impl<'a> Iter<'a> {
    #[verifier::type_invariant]
    spec fn inv(self) -> bool {
        &&& self.next <= self.storage@.len()
        &&& self.storage@.len() <= u32::MAX as int + 1
    }

    /// The interned strings being walked, in symbol order.
    pub closed spec fn strings(self) -> Seq<Seq<char>> {
        self.storage@.map_values(|s: String| s@)
    }

    /// The id of the next string to visit.
    pub closed spec fn position(self) -> int {
        self.next as int
    }

    /// Returns the next string with its symbol and moves past it; `None`
    /// once every string has been visited.
    pub fn next(&mut self) -> (r: Option<(Symbol, &'a str)>)
        ensures
            final(self).strings() == old(self).strings(),
            0 <= old(self).position() <= old(self).strings().len(),
            r is Some <==> old(self).position() < old(self).strings().len(),
            r matches Some((sym, s)) ==> sym@ == old(self).position() && s@ == old(
                self,
            ).strings()[old(self).position()],
            final(self).position() == (if r is Some {
                old(self).position() + 1
            } else {
                old(self).position()
            }),
    {
        proof {
            use_type_invariant(&*self);
        }
        let storage: &'a Vec<String> = self.storage;
        let i = self.next;
        if i >= storage.len() {
            return None;
        }
        self.next = i + 1;
        Some((Symbol(i as u32), storage[i].as_str()))
    }
}

} // verus!
