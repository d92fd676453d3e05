//! An ordered table from a key to the holder and license that claimed it.

use crate::order::{compare_text, lemma_lex_irreflexive, lemma_lex_transitive, lex_lt, Order};
use std::sync::Arc;
use vstd::prelude::*;

verus! {

/// A holder and a license.
pub type Pair = (Seq<char>, Seq<char>);

/// A key with the holder and the license that claimed it.
pub type Entry = (String, Arc<String>, Arc<String>);

/// Another handle to a shared string, from `Arc::clone`: it points to the
/// same string as the first.
#[verifier::external_body]
pub(crate) fn share(text: &Arc<String>) -> (r: Arc<String>)
    ensures
        r == *text,
{
    Arc::clone(text)
}

/// Two claims of one key that name different holders or licenses.
#[derive(Debug, Clone, PartialEq, Eq)]
pub struct Conflict {
    /// The key that was claimed twice.
    pub key: String,
    /// The holder of the later claim.
    pub holder: Arc<String>,
    /// The license of the later claim.
    pub license: Arc<String>,
    /// The holder of the earlier claim.
    pub existing_holder: Arc<String>,
    /// The license of the earlier claim.
    pub existing_license: Arc<String>,
}

/// A `Conflict` with its texts as character sequences.
pub struct Clash {
    pub key: Seq<char>,
    pub pair: Pair,
    pub existing: Pair,
}

impl View for Conflict {
    type V = Clash;

    open spec fn view(&self) -> Clash {
        Clash {
            key: self.key@,
            pair: (self.holder@, self.license@),
            existing: (self.existing_holder@, self.existing_license@),
        }
    }
}

/// What a claim of `key` for `pair` meets in a table: the key is free
/// (`Ok(true)`), it is held by the same pair (`Ok(false)`), or it is held by
/// another pair.
pub open spec fn claim_outcome(table: Map<Seq<char>, Pair>, key: Seq<char>, pair: Pair) -> Result<
    bool,
    Clash,
> {
    if !table.dom().contains(key) {
        Ok(true)
    } else if table[key] == pair {
        Ok(false)
    } else {
        Err(Clash { key, pair, existing: table[key] })
    }
}

/// The table after a claim of `key` for `pair`: the claim is entered where
/// the key was free, and the table stays as it was where it was not.
pub open spec fn claimed(table: Map<Seq<char>, Pair>, key: Seq<char>, pair: Pair) -> Map<
    Seq<char>,
    Pair,
> {
    if table.dom().contains(key) {
        table
    } else {
        table.insert(key, pair)
    }
}

/// The entries as character sequences.
pub open spec fn entry_views(entries: Seq<Entry>) -> Seq<(Seq<char>, Seq<char>, Seq<char>)> {
    Seq::new(entries.len(), |i: int| (entries[i].0@, entries[i].1@, entries[i].2@))
}

/// Whether the keys of a list ascend strictly in the lexicographic order.
pub open spec fn ascending(list: Seq<(Seq<char>, Seq<char>, Seq<char>)>) -> bool {
    forall|i: int, j: int| 0 <= i < j < list.len() ==> lex_lt(#[trigger] list[i].0, #[trigger] list[j].0)
}

/// Whether a key occurs in a list.
pub open spec fn has_key(list: Seq<(Seq<char>, Seq<char>, Seq<char>)>, key: Seq<char>) -> bool {
    exists|i: int| 0 <= i < list.len() && (#[trigger] list[i]).0 == key
}

/// The table that a list of entries stands for.
pub open spec fn table_of(list: Seq<(Seq<char>, Seq<char>, Seq<char>)>) -> Map<Seq<char>, Pair> {
    Map::new(
        |key: Seq<char>| has_key(list, key),
        |key: Seq<char>|
            {
                let i = choose|i: int| 0 <= i < list.len() && (#[trigger] list[i]).0 == key;
                (list[i].1, list[i].2)
            },
    )
}

/// In an ascending list each key occurs once, and the table holds for it
/// the pair of its entry.
pub proof fn lemma_table_entry(list: Seq<(Seq<char>, Seq<char>, Seq<char>)>, i: int)
    requires
        ascending(list),
        0 <= i < list.len(),
    ensures
        table_of(list).dom().contains(list[i].0),
        table_of(list)[list[i].0] == (list[i].1, list[i].2),
        forall|j: int| 0 <= j < list.len() && (#[trigger] list[j]).0 == list[i].0 ==> j == i,
{
    let key = list[i].0;
    lemma_lex_irreflexive(key);
    assert forall|j: int| 0 <= j < list.len() && (#[trigger] list[j]).0 == key implies j == i by {
        if j < i {
            assert(lex_lt(list[j].0, list[i].0));
        } else if i < j {
            assert(lex_lt(list[i].0, list[j].0));
        }
    }
    assert(has_key(list, key));
}

/// An entry put into an ascending list at its place adds its key to the
/// table, with its pair.
pub proof fn lemma_table_insert(
    list: Seq<(Seq<char>, Seq<char>, Seq<char>)>,
    at: int,
    entry: (Seq<char>, Seq<char>, Seq<char>),
)
    requires
        ascending(list),
        0 <= at <= list.len(),
        forall|i: int| 0 <= i < at ==> lex_lt((#[trigger] list[i]).0, entry.0),
        forall|i: int| at <= i < list.len() ==> lex_lt(entry.0, (#[trigger] list[i]).0),
    ensures
        ascending(list.insert(at, entry)),
        !has_key(list, entry.0),
        table_of(list.insert(at, entry)) == table_of(list).insert(entry.0, (entry.1, entry.2)),
{
    let longer = list.insert(at, entry);
    lemma_lex_irreflexive(entry.0);
    assert forall|i: int, j: int| 0 <= i < j < longer.len() implies lex_lt(
        #[trigger] longer[i].0,
        #[trigger] longer[j].0,
    ) by {
        let a = if i < at { i } else { i - 1 };
        let b = if j < at { j } else { j - 1 };
        if i == at {
            assert(longer[j] == list[b]);
        } else if j == at {
            assert(longer[i] == list[a]);
        } else {
            assert(longer[i] == list[a]);
            assert(longer[j] == list[b]);
            assert(a < b);
        }
    }
    assert(!has_key(list, entry.0)) by {
        if has_key(list, entry.0) {
            let i = choose|i: int| 0 <= i < list.len() && (#[trigger] list[i]).0 == entry.0;
            if i < at {
                assert(lex_lt(list[i].0, entry.0));
            } else {
                assert(lex_lt(entry.0, list[i].0));
            }
        }
    }
    let left = table_of(longer);
    let right = table_of(list).insert(entry.0, (entry.1, entry.2));
    assert forall|key: Seq<char>| left.dom().contains(key) == right.dom().contains(key) by {
        if has_key(longer, key) {
            let i = choose|i: int| 0 <= i < longer.len() && (#[trigger] longer[i]).0 == key;
            if i < at {
                assert(list[i].0 == key);
            } else if i > at {
                assert(list[i - 1].0 == key);
            }
        }
        if has_key(list, key) {
            let i = choose|i: int| 0 <= i < list.len() && (#[trigger] list[i]).0 == key;
            if i < at {
                assert(longer[i].0 == key);
            } else {
                assert(longer[i + 1].0 == key);
            }
        }
        if key == entry.0 {
            assert(longer[at].0 == key);
        }
    }
    assert forall|key: Seq<char>| left.dom().contains(key) implies left[key] == right[key] by {
        let i = choose|i: int| 0 <= i < longer.len() && (#[trigger] longer[i]).0 == key;
        lemma_table_entry(longer, i);
        if i < at {
            assert(longer[i] == list[i]);
            lemma_table_entry(list, i);
        } else if i > at {
            assert(longer[i] == list[i - 1]);
            lemma_table_entry(list, i - 1);
        }
    }
    assert(left =~= right);
}

/// Two ascending lists that stand for the same table are the same list.
pub proof fn lemma_ascending_unique(
    a: Seq<(Seq<char>, Seq<char>, Seq<char>)>,
    b: Seq<(Seq<char>, Seq<char>, Seq<char>)>,
)
    requires
        ascending(a),
        ascending(b),
        table_of(a) == table_of(b),
    ensures
        a == b,
    decreases a.len(),
{
    if a.len() == 0 || b.len() == 0 {
        if a.len() > 0 {
            assert(has_key(a, a[0].0));
            assert(table_of(b).dom().contains(a[0].0));
        }
        if b.len() > 0 {
            assert(has_key(b, b[0].0));
            assert(table_of(a).dom().contains(b[0].0));
        }
        assert(a =~= b);
    } else {
        let ka = a[0].0;
        let kb = b[0].0;
        lemma_table_entry(a, 0);
        lemma_table_entry(b, 0);
        assert(has_key(b, ka));
        assert(has_key(a, kb));
        let i = choose|i: int| 0 <= i < b.len() && (#[trigger] b[i]).0 == ka;
        let j = choose|j: int| 0 <= j < a.len() && (#[trigger] a[j]).0 == kb;
        lemma_lex_irreflexive(ka);
        if i > 0 {
            assert(lex_lt(b[0].0, b[i].0));
            if j > 0 {
                assert(lex_lt(a[0].0, a[j].0));
                lemma_lex_transitive(ka, kb, ka);
            }
        }
        assert(ka == kb);
        assert(a[0] == b[0]);
        let ra = a.drop_first();
        let rb = b.drop_first();
        assert forall|x: int, y: int| 0 <= x < y < ra.len() implies lex_lt(
            #[trigger] ra[x].0,
            #[trigger] ra[y].0,
        ) by {
            assert(ra[x] == a[x + 1]);
            assert(ra[y] == a[y + 1]);
        }
        assert forall|x: int, y: int| 0 <= x < y < rb.len() implies lex_lt(
            #[trigger] rb[x].0,
            #[trigger] rb[y].0,
        ) by {
            assert(rb[x] == b[x + 1]);
            assert(rb[y] == b[y + 1]);
        }
        assert forall|x: int| 0 <= x < ra.len() implies lex_lt(ka, (#[trigger] ra[x]).0) by {
            assert(ra[x] == a[x + 1]);
        }
        assert forall|x: int| 0 <= x < rb.len() implies lex_lt(kb, (#[trigger] rb[x]).0) by {
            assert(rb[x] == b[x + 1]);
        }
        lemma_table_insert(ra, 0, a[0]);
        lemma_table_insert(rb, 0, b[0]);
        assert(ra.insert(0, a[0]) =~= a);
        assert(rb.insert(0, b[0]) =~= b);
        assert(table_of(ra) =~= table_of(a).remove(ka));
        assert(table_of(rb) =~= table_of(b).remove(kb));
        lemma_ascending_unique(ra, rb);
        assert(a =~= b);
    }
}

/// The claims of a table as a list, in the order of their keys.
pub open spec fn ordered(table: Map<Seq<char>, Pair>) -> Seq<(Seq<char>, Seq<char>, Seq<char>)> {
    choose|list: Seq<(Seq<char>, Seq<char>, Seq<char>)>|
        ascending(list) && #[trigger] table_of(list) == table
}

/// A table from keys to the pair of holder and license that claimed each,
/// kept in the lexicographic order of the keys.
#[derive(Debug, Clone, PartialEq, Eq)]
pub struct Claims {
    entries: Vec<Entry>,
}

impl Default for Claims {
    fn default() -> (r: Claims)
        ensures
            r.wf(),
            r@ == Map::<Seq<char>, Pair>::empty(),
    {
        Claims::new()
    }
}

impl View for Claims {
    type V = Map<Seq<char>, Pair>;

    /// The table: each key with its pair.
    closed spec fn view(&self) -> Map<Seq<char>, Pair> {
        table_of(self.list())
    }
}

impl Claims {
    /// The entries in order: key, holder and license.
    pub closed spec fn list(&self) -> Seq<(Seq<char>, Seq<char>, Seq<char>)> {
        entry_views(self.entries@)
    }

    /// The keys ascend strictly, so none occurs twice.
    pub closed spec fn wf(&self) -> bool {
        ascending(self.list())
    }

    /// The table and the list hold the same claims, and the list is the
    /// table in the order of its keys.
    pub proof fn lemma_view(&self)
        requires
            self.wf(),
        ensures
            self@ == table_of(self.list()),
            ascending(self.list()),
            self.list() == ordered(self@),
    {
        assert(table_of(self.list()) == self@);
        lemma_ascending_unique(self.list(), ordered(self@));
    }

    /// A table without claims.
    pub fn new() -> (r: Claims)
        ensures
            r.wf(),
            r@ == Map::<Seq<char>, Pair>::empty(),
            r.list() == Seq::<(Seq<char>, Seq<char>, Seq<char>)>::empty(),
    {
        let r = Claims { entries: Vec::new() };
        assert(r.list() =~= Seq::empty());
        assert(r@ =~= Map::empty());
        r
    }

    /// The number of claims.
    pub fn len(&self) -> (n: usize)
        ensures
            n == self.list().len(),
    {
        self.entries.len()
    }

    /// The claims in the order of their keys.
    pub fn entries(&self) -> (r: &Vec<Entry>)
        ensures
            entry_views(r@) == self.list(),
    {
        &self.entries
    }

    /// The keys in their order.
    pub fn keys(&self) -> (r: Vec<String>)
        ensures
            r@.len() == self.list().len(),
            forall|i: int| 0 <= i < r@.len() ==> (#[trigger] r@[i])@ == self.list()[i].0,
    {
        let mut keys: Vec<String> = Vec::new();
        let mut i: usize = 0;
        while i < self.entries.len()
            invariant
                i <= self.entries@.len(),
                keys@.len() == i,
                forall|k: int| 0 <= k < i ==> (#[trigger] keys@[k])@ == self.list()[k].0,
            decreases self.entries@.len() - i,
        {
            keys.push(self.entries[i].0.clone());
            i += 1;
        }
        keys
    }

    /// The place of a key in the order: the position of its entry, or the
    /// position at which an entry for it belongs.
    fn locate(&self, key: &str) -> (r: (usize, bool))
        requires
            self.wf(),
        ensures
            r.0 <= self.list().len(),
            r.1 ==> r.0 < self.list().len() && self.list()[r.0 as int].0 == key@,
            !r.1 ==> forall|i: int| 0 <= i < r.0 ==> lex_lt((#[trigger] self.list()[i]).0, key@),
            !r.1 ==> forall|i: int|
                r.0 <= i < self.list().len() ==> lex_lt(key@, (#[trigger] self.list()[i]).0),
    {
        let ghost list = self.list();
        let mut lo: usize = 0;
        let mut hi: usize = self.entries.len();
        while lo < hi
            invariant
                lo <= hi <= list.len(),
                list == self.list(),
                list.len() == self.entries@.len(),
                ascending(list),
                forall|i: int| 0 <= i < lo ==> lex_lt((#[trigger] list[i]).0, key@),
                forall|i: int| hi <= i < list.len() ==> lex_lt(key@, (#[trigger] list[i]).0),
            decreases hi - lo,
        {
            let mid: usize = lo + (hi - lo) / 2;
            let probe = self.entries[mid].0.as_str();
            assert(probe@ == list[mid as int].0);
            match compare_text(probe, key) {
                Order::Same => {
                    return (mid, true);
                },
                Order::Before => {
                    assert forall|i: int| 0 <= i < mid + 1 implies lex_lt(
                        (#[trigger] list[i]).0,
                        key@,
                    ) by {
                        if i < mid {
                            assert(lex_lt(list[i].0, list[mid as int].0));
                            lemma_lex_transitive(list[i].0, probe@, key@);
                        }
                    }
                    lo = mid + 1;
                },
                Order::After => {
                    assert forall|i: int| mid <= i < list.len() implies lex_lt(
                        key@,
                        (#[trigger] list[i]).0,
                    ) by {
                        if i > mid {
                            assert(lex_lt(list[mid as int].0, list[i].0));
                            lemma_lex_transitive(key@, probe@, list[i].0);
                        }
                    }
                    hi = mid;
                },
            }
        }
        (lo, false)
    }

    /// The holder and the license that claimed a key, if any did.
    pub fn get(&self, key: &str) -> (r: Option<(&Arc<String>, &Arc<String>)>)
        requires
            self.wf(),
        ensures
            match r {
                Some(pair) => self@.dom().contains(key@) && self@[key@] == (pair.0@, pair.1@),
                None => !self@.dom().contains(key@),
            },
    {
        let place = self.locate(key);
        if place.1 {
            proof {
                lemma_table_entry(self.list(), place.0 as int);
            }
            let entry = &self.entries[place.0];
            Some((&entry.1, &entry.2))
        } else {
            proof {
                lemma_lex_irreflexive(key@);
                if has_key(self.list(), key@) {
                    let i = choose|i: int|
                        0 <= i < self.list().len() && (#[trigger] self.list()[i]).0 == key@;
                    if i < place.0 {
                        assert(lex_lt(self.list()[i].0, key@));
                    } else {
                        assert(lex_lt(key@, self.list()[i].0));
                    }
                }
            }
            None
        }
    }

    /// Claims a key for a holder and a license. A free key is entered
    /// (`Ok(true)`); a key that the same holder and license hold already is
    /// left as it is (`Ok(false)`); a key that another pair holds is a
    /// conflict, and the table stays as it was.
    pub fn claim(&mut self, key: String, holder: Arc<String>, license: Arc<String>) -> (r: Result<
        bool,
        Conflict,
    >)
        requires
            old(self).wf(),
        ensures
            final(self).wf(),
            final(self)@ == claimed(old(self)@, key@, (holder@, license@)),
            match r {
                Ok(fresh) => claim_outcome(old(self)@, key@, (holder@, license@)) == Ok::<
                    bool,
                    Clash,
                >(fresh),
                Err(conflict) => claim_outcome(old(self)@, key@, (holder@, license@)) == Err::<
                    bool,
                    Clash,
                >(conflict@),
            },
    {
        let place = self.locate(key.as_str());
        if place.1 {
            proof {
                lemma_table_entry(self.list(), place.0 as int);
            }
            let entry = &self.entries[place.0];
            if same_text(&entry.1, &holder) && same_text(&entry.2, &license) {
                Ok(false)
            } else {
                Err(
                    Conflict {
                        key,
                        holder,
                        license,
                        existing_holder: share(&entry.1),
                        existing_license: share(&entry.2),
                    },
                )
            }
        } else {
            proof {
                lemma_table_insert(self.list(), place.0 as int, (key@, holder@, license@));
                assert(entry_views(self.entries@.insert(place.0 as int, (key, holder, license)))
                    =~= self.list().insert(place.0 as int, (key@, holder@, license@)));
            }
            self.entries.insert(place.0, (key, holder, license));
            Ok(true)
        }
    }

    /// The claims in the order of their keys.
    pub fn into_entries(self) -> (r: Vec<Entry>)
        requires
            self.wf(),
        ensures
            entry_views(r@) == self.list(),
            ascending(entry_views(r@)),
            table_of(entry_views(r@)) == self@,
    {
        self.entries
    }
}

/// Whether two shared strings hold the same text.
pub fn same_text(a: &Arc<String>, b: &Arc<String>) -> (r: bool)
    ensures
        r == (a@ == b@),
{
    let x: &String = &**a;
    let y: &String = &**b;
    *x == *y
}

} // verus!
