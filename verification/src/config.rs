//! The mapping from glob patterns to holders and licenses.

use crate::claims::{
    ascending, claim_outcome, claimed, entry_views, lemma_table_entry, lemma_table_insert,
    ordered, same_text, share, table_of, Claims, Clash, Conflict, Entry, Pair,
};
use crate::order::{lemma_lex_irreflexive, lex_lt};
use crate::text::texts;
use std::sync::Arc;
use vstd::prelude::*;

verus! {

#[verifier::external_type_specification]
#[verifier::external_body]
pub struct ExOutsideError(pistonite_cu::Error);

/// The default config file, of the two that are looked for in the working
/// directory: `Lisensor.toml` if it is there, else `lisensor.toml` if that
/// is there.
pub fn try_find_default_config_file(upper_exists: bool, lower_exists: bool) -> (r: Option<
    &'static str,
>)
    ensures
        upper_exists ==> (r matches Some(name) && name@ == "Lisensor.toml"@),
        !upper_exists && lower_exists ==> (r matches Some(name) && name@ == "lisensor.toml"@),
        !upper_exists && !lower_exists ==> r is None,
{
    if upper_exists {
        Some("Lisensor.toml")
    } else if lower_exists {
        Some("lisensor.toml")
    } else {
        None
    }
}

/// Why a configuration cannot be built.
#[derive(Debug, Clone, PartialEq, Eq)]
pub enum ConfigError {
    /// The text of a config file is no table of tables of strings.
    Malformed(String),
    /// The path of a config file has no parent directory.
    NoParent,
    /// A glob joined to the directory of its config file is not UTF-8.
    NotUtf8(String),
    /// One glob is given two different pairs of holder and license.
    Conflict(Conflict),
    /// A holder and a license were given although a default config file is there.
    InlineWithConfigFile(String),
    /// No config file was named and there is no default config file.
    NoConfig,
}

/// A `ConfigError` with its texts as character sequences, and without the
/// messages of the errors that come from outside.
pub enum ConfigFault {
    Malformed,
    NoParent,
    NotUtf8,
    Conflict(Clash),
    InlineWithConfigFile(Seq<char>),
    NoConfig,
}

impl View for ConfigError {
    type V = ConfigFault;

    open spec fn view(&self) -> ConfigFault {
        match *self {
            ConfigError::Malformed(_) => ConfigFault::Malformed,
            ConfigError::NoParent => ConfigFault::NoParent,
            ConfigError::NotUtf8(_) => ConfigFault::NotUtf8,
            ConfigError::Conflict(conflict) => ConfigFault::Conflict(conflict@),
            ConfigError::InlineWithConfigFile(path) => ConfigFault::InlineWithConfigFile(path@),
            ConfigError::NoConfig => ConfigFault::NoConfig,
        }
    }
}

/// The tables of a config file, read by `pistonite_cu::toml::parse` as a map
/// from holder to a map from glob to license: each holder with its globs and
/// their licenses, or nothing where the text is refused.
pub uninterp spec fn parsed_tables(text: Seq<char>) -> Option<
    Seq<(Seq<char>, Seq<(Seq<char>, Seq<char>)>)>,
>;

/// The tables as character sequences.
pub open spec fn table_views(tables: Seq<(String, Vec<(String, String)>)>) -> Seq<
    (Seq<char>, Seq<(Seq<char>, Seq<char>)>),
> {
    Seq::new(
        tables.len(),
        |i: int|
            (
                tables[i].0@,
                Seq::new(
                    tables[i].1@.len(),
                    |j: int| (tables[i].1@[j].0@, tables[i].1@[j].1@),
                ),
            ),
    )
}

/// Reads the text of a config file with `pistonite_cu::toml::parse` into a
/// map from holder to a map from glob to license, and hands the maps out as
/// lists in the order of their keys. The result depends on the text alone.
#[verifier::external_body]
fn parse_tables(text: &str) -> (r: Result<Vec<(String, Vec<(String, String)>)>, pistonite_cu::Error>)
    ensures
        match r {
            Ok(tables) => parsed_tables(text@) == Some(table_views(tables@)),
            Err(_) => parsed_tables(text@) is None,
        },
{
    let raw = pistonite_cu::toml::parse::<
        std::collections::BTreeMap<String, std::collections::BTreeMap<String, String>>,
    >(text)?;
    Ok(raw.into_iter().map(|(holder, table)| (holder, table.into_iter().collect())).collect())
}

/// The message of an error of `pistonite_cu`, from its `to_string`. Nothing
/// is stated of the text.
#[verifier::external_body]
fn describe(error: &pistonite_cu::Error) -> String {
    error.to_string()
}

/// The directory that holds a file, as `std::path::Path::parent` finds it
/// in the path; nothing for a path without one.
pub uninterp spec fn parent_dir(path: Seq<char>) -> Option<Seq<char>>;

/// The directory that holds a file, from `std::path::Path::parent`. The
/// result depends on the path alone; std documents that the empty path has
/// no parent.
#[verifier::external_body]
fn parent_of(path: &str) -> (r: Option<String>)
    ensures
        match r {
            Some(dir) => parent_dir(path@) == Some(dir@),
            None => parent_dir(path@) is None,
        },
        path@.len() == 0 ==> r is None,
{
    match std::path::Path::new(path).parent() {
        Some(parent) => match parent.to_str() {
            Some(parent) => Some(parent.to_owned()),
            None => None,
        },
        None => None,
    }
}

/// A glob joined to a directory, as `std::path::Path::join` joins the two
/// and `pistonite_cu::PathExtensionOwned::into_utf8` hands the path out;
/// nothing where the joined path is not UTF-8.
pub uninterp spec fn joined_path(dir: Seq<char>, glob: Seq<char>) -> Option<Seq<char>>;

/// A glob joined to a directory with `std::path::Path::join`, as a string
/// from `pistonite_cu::PathExtensionOwned::into_utf8`, which fails for a path
/// that is not UTF-8. The result depends on the two texts alone.
#[verifier::external_body]
fn join_glob(dir: &str, glob: &str) -> (r: Result<String, pistonite_cu::Error>)
    ensures
        match r {
            Ok(path) => joined_path(dir@, glob@) == Some(path@),
            Err(_) => joined_path(dir@, glob@) is None,
        },
{
    pistonite_cu::PathExtensionOwned::into_utf8(std::path::Path::new(dir).join(glob))
}

/// What becomes of a table that takes in the globs of one holder, each
/// joined to the directory of the config file, one by one: the table with
/// every glob, or the first failure.
pub open spec fn take_in(
    table: Map<Seq<char>, Pair>,
    dir: Seq<char>,
    holder: Seq<char>,
    licenses: Seq<(Seq<char>, Seq<char>)>,
) -> Result<Map<Seq<char>, Pair>, ConfigFault>
    decreases licenses.len(),
{
    if licenses.len() == 0 {
        Ok(table)
    } else {
        match joined_path(dir, licenses[0].0) {
            None => Err(ConfigFault::NotUtf8),
            Some(glob) => {
                let pair = (holder, licenses[0].1);
                match claim_outcome(table, glob, pair) {
                    Err(clash) => Err(ConfigFault::Conflict(clash)),
                    Ok(_) => take_in(claimed(table, glob, pair), dir, holder, licenses.drop_first()),
                }
            },
        }
    }
}

/// What becomes of a table that takes in the tables of a config file, one
/// holder after the other.
pub open spec fn take_in_all(
    table: Map<Seq<char>, Pair>,
    dir: Seq<char>,
    tables: Seq<(Seq<char>, Seq<(Seq<char>, Seq<char>)>)>,
) -> Result<Map<Seq<char>, Pair>, ConfigFault>
    decreases tables.len(),
{
    if tables.len() == 0 {
        Ok(table)
    } else {
        match take_in(table, dir, tables[0].0, tables[0].1) {
            Err(fault) => Err(fault),
            Ok(next) => take_in_all(next, dir, tables.drop_first()),
        }
    }
}

/// The globs that are passed over when a table takes in the tables of a
/// config file: each glob that comes again with the holder and the license
/// that it has already, up to the first failure.
pub open spec fn repeats_in_all(
    table: Map<Seq<char>, Pair>,
    dir: Seq<char>,
    tables: Seq<(Seq<char>, Seq<(Seq<char>, Seq<char>)>)>,
) -> Seq<Seq<char>>
    decreases tables.len(), 0nat,
{
    if tables.len() == 0 {
        Seq::empty()
    } else {
        repeats_from(table, dir, tables[0].0, tables[0].1, tables.drop_first())
    }
}

/// The globs that are passed over when a table takes in the globs of one
/// holder and then the tables of the holders behind it.
pub open spec fn repeats_from(
    table: Map<Seq<char>, Pair>,
    dir: Seq<char>,
    holder: Seq<char>,
    licenses: Seq<(Seq<char>, Seq<char>)>,
    rest: Seq<(Seq<char>, Seq<(Seq<char>, Seq<char>)>)>,
) -> Seq<Seq<char>>
    decreases rest.len(), licenses.len() + 1,
{
    if licenses.len() == 0 {
        repeats_in_all(table, dir, rest)
    } else {
        match joined_path(dir, licenses[0].0) {
            None => Seq::empty(),
            Some(glob) => {
                let pair = (holder, licenses[0].1);
                match claim_outcome(table, glob, pair) {
                    Err(_) => Seq::empty(),
                    Ok(fresh) => {
                        let more = repeats_from(
                            claimed(table, glob, pair),
                            dir,
                            holder,
                            licenses.drop_first(),
                            rest,
                        );
                        if fresh {
                            more
                        } else {
                            seq![glob] + more
                        }
                    },
                }
            },
        }
    }
}

/// The globs that the config file at a path gives more than once, each time
/// with the same holder and license, up to its first failure; none for a
/// file that gives no tables or has no parent directory.
pub open spec fn file_repeats(path: Seq<char>, text: Seq<char>) -> Seq<Seq<char>> {
    match parsed_tables(text) {
        None => Seq::empty(),
        Some(tables) => match parent_dir(path) {
            None => Seq::empty(),
            Some(dir) => repeats_in_all(Map::empty(), dir, tables),
        },
    }
}

/// The mapping that the text of the config file at a path gives, or why it
/// gives none. The text must be a table of holders, each with a table from
/// globs to licenses, and the path must have a parent directory. Each glob
/// is joined to that directory. The holders are taken in their order and the
/// globs of each in theirs; a glob that comes again with the same holder and
/// license is passed over, and one that comes again with another is a
/// conflict.
pub open spec fn built(path: Seq<char>, text: Seq<char>) -> Result<Map<Seq<char>, Pair>, ConfigFault> {
    match parsed_tables(text) {
        None => Err(ConfigFault::Malformed),
        Some(tables) => match parent_dir(path) {
            None => Err(ConfigFault::NoParent),
            Some(dir) => take_in_all(Map::empty(), dir, tables),
        },
    }
}

/// What becomes of a table that takes in a list of claims one by one: the
/// table with every claim up to the first that conflicts, and that conflict
/// if there is one.
pub open spec fn absorbed(
    table: Map<Seq<char>, Pair>,
    list: Seq<(Seq<char>, Seq<char>, Seq<char>)>,
) -> (Map<Seq<char>, Pair>, Option<Clash>)
    decreases list.len(),
{
    if list.len() == 0 {
        (table, None)
    } else {
        let pair = (list[0].1, list[0].2);
        match claim_outcome(table, list[0].0, pair) {
            Err(clash) => (table, Some(clash)),
            Ok(_) => absorbed(claimed(table, list[0].0, pair), list.drop_first()),
        }
    }
}

/// The globs of a list that stand in it a second time or more: each glob
/// that an earlier place of the list holds too, in the order of the list.
pub open spec fn repeats(list: Seq<Seq<char>>) -> Seq<Seq<char>>
    decreases list.len(),
{
    if list.len() == 0 {
        Seq::empty()
    } else if list.drop_last().contains(list.last()) {
        repeats(list.drop_last()).push(list.last())
    } else {
        repeats(list.drop_last())
    }
}

/// The globs that a table takes in without change when it takes in a list
/// of claims: each glob of the list that the table holds with the same pair,
/// in the order of the list, up to the first that the table holds with
/// another pair.
pub open spec fn shared(
    table: Map<Seq<char>, Pair>,
    list: Seq<(Seq<char>, Seq<char>, Seq<char>)>,
) -> Seq<Seq<char>>
    decreases list.len(),
{
    if list.len() == 0 {
        Seq::empty()
    } else {
        match claim_outcome(table, list[0].0, (list[0].1, list[0].2)) {
            Err(_) => Seq::empty(),
            Ok(fresh) => if fresh {
                shared(table, list.drop_first())
            } else {
                seq![list[0].0] + shared(table, list.drop_first())
            },
        }
    }
}

/// The globs that a table passes over while it takes in a list of claims one
/// by one: each glob that the table holds by then with the same pair, up to
/// the first that conflicts.
pub open spec fn passed_over(
    table: Map<Seq<char>, Pair>,
    list: Seq<(Seq<char>, Seq<char>, Seq<char>)>,
) -> Seq<Seq<char>>
    decreases list.len(),
{
    if list.len() == 0 {
        Seq::empty()
    } else {
        let pair = (list[0].1, list[0].2);
        match claim_outcome(table, list[0].0, pair) {
            Err(_) => Seq::empty(),
            Ok(fresh) => {
                let more = passed_over(claimed(table, list[0].0, pair), list.drop_first());
                if fresh {
                    more
                } else {
                    seq![list[0].0] + more
                }
            },
        }
    }
}

/// Whether two tables hold the same for every key of a list.
pub open spec fn agree_on(
    one: Map<Seq<char>, Pair>,
    other: Map<Seq<char>, Pair>,
    list: Seq<(Seq<char>, Seq<char>, Seq<char>)>,
) -> bool {
    forall|i: int|
        0 <= i < list.len() ==> {
            let key = (#[trigger] list[i]).0;
            one.dom().contains(key) == other.dom().contains(key) && (one.dom().contains(key)
                ==> one[key] == other[key])
        }
}

proof fn lemma_passed_over(
    one: Map<Seq<char>, Pair>,
    other: Map<Seq<char>, Pair>,
    list: Seq<(Seq<char>, Seq<char>, Seq<char>)>,
)
    requires
        ascending(list),
        agree_on(one, other, list),
    ensures
        shared(one, list) == passed_over(other, list),
    decreases list.len(),
{
    if list.len() > 0 {
        let key = list[0].0;
        let pair = (list[0].1, list[0].2);
        let rest = list.drop_first();
        assert(list[0].0 == key);
        assert(claim_outcome(one, key, pair) == claim_outcome(other, key, pair));
        if claim_outcome(one, key, pair) is Ok {
            let next = claimed(other, key, pair);
            lemma_lex_irreflexive(key);
            assert forall|i: int, j: int| 0 <= i < j < rest.len() implies lex_lt(
                #[trigger] rest[i].0,
                #[trigger] rest[j].0,
            ) by {
                assert(rest[i] == list[i + 1]);
                assert(rest[j] == list[j + 1]);
            }
            assert forall|i: int| 0 <= i < rest.len() implies {
                let k = (#[trigger] rest[i]).0;
                one.dom().contains(k) == next.dom().contains(k) && (one.dom().contains(k)
                    ==> one[k] == next[k])
            } by {
                assert(rest[i] == list[i + 1]);
                assert(lex_lt(list[0].0, list[i + 1].0));
            }
            lemma_passed_over(one, next, rest);
        }
    }
}

/// The globs that a merge passes over are the globs that the two share. A
/// table that takes in the claims of another, whose keys ascend, passes over
/// just the keys that it held from the start with the same pair, up to the
/// first conflict.
pub proof fn lemma_shared(table: Map<Seq<char>, Pair>, list: Seq<(Seq<char>, Seq<char>, Seq<char>)>)
    requires
        ascending(list),
    ensures
        passed_over(table, list) == shared(table, list),
{
    lemma_passed_over(table, table, list);
}

/// Merging detects conflicts. A table that takes in the claims of another
/// comes to a conflict just when some key has different pairs in the two;
/// the conflict then names such a key, the pair that the table holds for it
/// and the pair that the other gives it. Where every key that both hold has
/// the same pair in both, there is no conflict, and the table becomes the
/// union of the two.
pub proof fn lemma_absorbed(
    table: Map<Seq<char>, Pair>,
    list: Seq<(Seq<char>, Seq<char>, Seq<char>)>,
)
    requires
        ascending(list),
    ensures
        ({
            let other = table_of(list);
            let agree = forall|key: Seq<char>|
                table.dom().contains(key) && other.dom().contains(key) ==> table[key]
                    == other[key];
            match absorbed(table, list).1 {
                None => agree && absorbed(table, list).0 == table.union_prefer_right(other),
                Some(clash) => {
                    &&& !agree
                    &&& table.dom().contains(clash.key)
                    &&& other.dom().contains(clash.key)
                    &&& clash.existing == table[clash.key]
                    &&& clash.pair == other[clash.key]
                    &&& clash.pair != clash.existing
                },
            }
        }),
    decreases list.len(),
{
    let other = table_of(list);
    if list.len() == 0 {
        assert(other =~= Map::empty());
        assert(table.union_prefer_right(other) =~= table);
    } else {
        let key = list[0].0;
        let pair = (list[0].1, list[0].2);
        let rest = list.drop_first();
        assert forall|i: int, j: int| 0 <= i < j < rest.len() implies lex_lt(
            #[trigger] rest[i].0,
            #[trigger] rest[j].0,
        ) by {
            assert(rest[i] == list[i + 1]);
            assert(rest[j] == list[j + 1]);
        }
        assert forall|i: int| 0 <= i < rest.len() implies lex_lt(
            key,
            (#[trigger] rest[i]).0,
        ) by {
            assert(rest[i] == list[i + 1]);
        }
        lemma_table_insert(rest, 0, list[0]);
        assert(rest.insert(0, list[0]) =~= list);
        let less = table_of(rest);
        assert(other == less.insert(key, pair));
        assert(!less.dom().contains(key));
        lemma_table_entry(list, 0);
        match claim_outcome(table, key, pair) {
            Err(clash) => {},
            Ok(_) => {
                let next = claimed(table, key, pair);
                lemma_absorbed(next, rest);
                match absorbed(next, rest).1 {
                    None => {
                        assert(next.union_prefer_right(less) =~= table.union_prefer_right(other));
                    },
                    Some(clash) => {},
                }
            },
        }
    }
}

/// Config object
#[derive(Debug, Clone, PartialEq, Eq)]
pub struct Config {
    // glob -> (holder, license)
    globs: Claims,
}

impl View for Config {
    type V = Map<Seq<char>, Pair>;

    /// Each glob with its holder and license.
    closed spec fn view(&self) -> Map<Seq<char>, Pair> {
        self.globs@
    }
}

impl Default for Config {
    fn default() -> (r: Config)
        ensures
            r.wf(),
            r@ == Map::<Seq<char>, Pair>::empty(),
    {
        Config { globs: Claims::new() }
    }
}

impl Config {
    /// The globs in their order, each with its holder and license.
    pub closed spec fn list(&self) -> Seq<(Seq<char>, Seq<char>, Seq<char>)> {
        self.globs.list()
    }

    /// No glob occurs twice: the globs ascend strictly.
    pub closed spec fn wf(&self) -> bool {
        self.globs.wf()
    }

    /// The mapping is the table of the list, and the list is the mapping in
    /// the order of its globs.
    pub proof fn lemma_view(&self)
        requires
            self.wf(),
        ensures
            self@ == table_of(self.list()),
            ascending(self.list()),
            self.list() == ordered(self@),
    {
        self.globs.lemma_view();
    }

    /// Merging detects conflicts. Merging another config into this one fails
    /// just when some glob has different pairs of holder and license in the
    /// two; the conflict then names such a glob with both pairs. Where every
    /// glob that both configs hold has the same pair in both, the merge
    /// succeeds, and this config becomes the union of the two.
    pub proof fn lemma_merge(&self, other: &Config)
        requires
            self.wf(),
            other.wf(),
        ensures
            ({
                let agree = forall|glob: Seq<char>|
                    self@.dom().contains(glob) && other@.dom().contains(glob) ==> self@[glob]
                        == other@[glob];
                match absorbed(self@, other.list()).1 {
                    None => agree && absorbed(self@, other.list()).0 == self@.union_prefer_right(
                        other@,
                    ),
                    Some(clash) => {
                        &&& !agree
                        &&& self@.dom().contains(clash.key)
                        &&& other@.dom().contains(clash.key)
                        &&& clash.existing == self@[clash.key]
                        &&& clash.pair == other@[clash.key]
                        &&& clash.pair != clash.existing
                    },
                }
            }),
    {
        other.lemma_view();
        lemma_absorbed(self@, other.list());
    }

    /// Create a config object from a single holder and license,
    /// with multiple glob patterns. A glob that is given more than once
    /// stands in the config once; `repeated_globs` names those.
    pub fn new(holder: String, license: String, glob_list: Vec<String>) -> (r: Config)
        ensures
            r.wf(),
            forall|glob: Seq<char>|
                r@.dom().contains(glob) <==> exists|i: int|
                    0 <= i < glob_list@.len() && (#[trigger] glob_list@[i])@ == glob,
            forall|glob: Seq<char>| r@.dom().contains(glob) ==> r@[glob] == (holder@, license@),
    {
        let holder = Arc::new(holder);
        let license = Arc::new(license);
        let mut globs = Claims::new();
        let mut n: usize = 0;
        while n < glob_list.len()
            invariant
                n <= glob_list@.len(),
                globs.wf(),
                forall|glob: Seq<char>|
                    globs@.dom().contains(glob) <==> exists|i: int|
                        0 <= i < n && (#[trigger] glob_list@[i])@ == glob,
                forall|glob: Seq<char>|
                    globs@.dom().contains(glob) ==> globs@[glob] == (holder@, license@),
            decreases glob_list@.len() - n,
        {
            let glob = glob_list[n].clone();
            let ghost before = globs@;
            let _ = globs.claim(glob, share(&holder), share(&license));
            proof {
                let key = glob_list@[n as int]@;
                assert forall|glob: Seq<char>| globs@.dom().contains(glob) implies exists|i: int|
                    0 <= i < n + 1 && (#[trigger] glob_list@[i])@ == glob by {
                    if glob == key {
                        assert(glob_list@[n as int]@ == glob);
                    } else {
                        assert(before.dom().contains(glob));
                        let i = choose|i: int| 0 <= i < n && (#[trigger] glob_list@[i])@ == glob;
                        assert(glob_list@[i]@ == glob);
                    }
                }
            }
            n += 1;
        }
        Config { globs }
    }

    /// The globs of a list that are given more than once: each glob that
    /// stands earlier in the list too, in the order of the list. A config
    /// that is made of the list holds each of them once.
    pub fn repeated_globs(glob_list: &Vec<String>) -> (r: Vec<String>)
        ensures
            texts(r@) == repeats(texts(glob_list@)),
    {
        let ghost list = texts(glob_list@);
        let mark = Arc::new(String::new());
        let mut seen = Claims::new();
        let mut found: Vec<String> = Vec::new();
        let mut n: usize = 0;
        assert(list.take(0) =~= Seq::empty());
        assert(texts(found@) =~= Seq::empty());
        while n < glob_list.len()
            invariant
                n <= glob_list@.len(),
                list == texts(glob_list@),
                seen.wf(),
                forall|glob: Seq<char>|
                    seen@.dom().contains(glob) <==> list.take(n as int).contains(glob),
                forall|glob: Seq<char>| seen@.dom().contains(glob) ==> seen@[glob] == (mark@, mark@),
                texts(found@) == repeats(list.take(n as int)),
            decreases glob_list@.len() - n,
        {
            let ghost before = list.take(n as int);
            let ghost after = list.take(n + 1);
            let ghost key = list[n as int];
            proof {
                assert(after.drop_last() =~= before);
                assert(after.last() == key);
                assert forall|glob: Seq<char>| after.contains(glob) <==> before.contains(glob)
                    || glob == key by {
                    if after.contains(glob) {
                        let i = choose|i: int| 0 <= i < after.len() && after[i] == glob;
                        if i < n {
                            assert(before[i] == glob);
                        }
                    }
                    if before.contains(glob) {
                        let i = choose|i: int| 0 <= i < before.len() && before[i] == glob;
                        assert(after[i] == glob);
                    }
                    if glob == key {
                        assert(after[n as int] == glob);
                    }
                }
            }
            let fresh = seen.claim(glob_list[n].clone(), share(&mark), share(&mark));
            if let Ok(false) = fresh {
                let ghost listed = texts(found@);
                found.push(glob_list[n].clone());
                assert(texts(found@) =~= listed.push(key));
            }
            n += 1;
        }
        assert(list.take(n as int) =~= list);
        found
    }

    /// The globs of `other` that this config holds with the same holder and
    /// license, in their order, up to the first that it holds with another:
    /// the globs that a merge of `other` into this config passes over.
    pub fn shared_globs(&self, other: &Config) -> (r: Vec<String>)
        requires
            self.wf(),
            other.wf(),
        ensures
            texts(r@) == shared(self@, other.list()),
    {
        let entries = other.globs.entries();
        let ghost list = entry_views(entries@);
        let mut found: Vec<String> = Vec::new();
        let mut n: usize = 0;
        assert(list.skip(0) =~= list);
        assert(texts(found@) =~= Seq::empty());
        while n < entries.len()
            invariant
                n <= entries@.len(),
                list == entry_views(entries@),
                list == other.list(),
                self.wf(),
                shared(self@, list) == texts(found@) + shared(self@, list.skip(n as int)),
            decreases entries@.len() - n,
        {
            proof {
                let rest = list.skip(n as int);
                assert(rest[0] == list[n as int]);
                assert(rest.drop_first() =~= list.skip(n + 1));
            }
            match self.globs.get(entries[n].0.as_str()) {
                None => {},
                Some(pair) => {
                    if same_text(pair.0, &entries[n].1) && same_text(pair.1, &entries[n].2) {
                        let ghost listed = texts(found@);
                        let ghost rest = shared(self@, list.skip(n + 1));
                        found.push(entries[n].0.clone());
                        assert(texts(found@) =~= listed.push(list[n as int].0));
                        assert(listed + (seq![list[n as int].0] + rest) =~= texts(found@) + rest);
                    } else {
                        assert(texts(found@) + Seq::<Seq<char>>::empty() =~= texts(found@));
                        return found;
                    }
                },
            }
            n += 1;
        }
        assert(list.skip(n as int) =~= Seq::empty());
        assert(texts(found@) + Seq::<Seq<char>>::empty() =~= texts(found@));
        found
    }

    /// Takes in the tables of a config file that stands in the directory
    /// `dir`: each holder with its globs and their licenses. Each glob is
    /// joined to the directory. The holders are taken in their order and the
    /// globs of each in theirs, up to the first failure. Returns the config,
    /// or the failure, and the globs that were passed over because they came
    /// again with the same holder and license.
    pub fn take_in_tables(dir: &str, tables: &Vec<(String, Vec<(String, String)>)>) -> (r: (
        Result<Config, ConfigError>,
        Vec<String>,
    ))
        ensures
            match r.0 {
                Ok(config) => config.wf() && take_in_all(
                    Map::empty(),
                    dir@,
                    table_views(tables@),
                ) == Ok::<Map<Seq<char>, Pair>, ConfigFault>(config@),
                Err(e) => take_in_all(Map::empty(), dir@, table_views(tables@)) == Err::<
                    Map<Seq<char>, Pair>,
                    ConfigFault,
                >(e@),
            },
            texts(r.1@) == repeats_in_all(Map::empty(), dir@, table_views(tables@)),
    {
        let ghost views = table_views(tables@);
        let ghost whole = take_in_all(Map::empty(), dir@, views);
        let ghost noted = repeats_in_all(Map::empty(), dir@, views);
        let mut globs = Claims::new();
        let mut found: Vec<String> = Vec::new();
        let mut i: usize = 0;
        assert(views.skip(0) == views);
        assert(texts(found@) =~= Seq::empty());
        assert(texts(found@) + noted =~= noted);
        while i < tables.len()
            invariant
                i <= tables@.len(),
                views == table_views(tables@),
                globs.wf(),
                whole == take_in_all(Map::empty(), dir@, views),
                whole == take_in_all(globs@, dir@, views.skip(i as int)),
                noted == repeats_in_all(Map::empty(), dir@, views),
                noted == texts(found@) + repeats_in_all(globs@, dir@, views.skip(i as int)),
            decreases tables@.len() - i,
        {
            let holder = Arc::new(tables[i].0.clone());
            let ghost licenses = views[i as int].1;
            let ghost behind = views.skip(i + 1);
            let mut j: usize = 0;
            proof {
                let rest = views.skip(i as int);
                assert(rest[0] == views[i as int]);
                assert(rest.drop_first() == behind);
                assert(licenses.skip(0) == licenses);
            }
            while j < tables[i as usize].1.len()
                invariant
                    i < tables@.len(),
                    j <= tables@[i as int].1@.len(),
                    holder@ == tables@[i as int].0@,
                    views == table_views(tables@),
                    licenses == views[i as int].1,
                    behind == views.skip(i + 1),
                    globs.wf(),
                    whole == take_in_all(Map::empty(), dir@, views),
                    whole == match take_in(globs@, dir@, holder@, licenses.skip(j as int)) {
                        Err(fault) => Err(fault),
                        Ok(next) => take_in_all(next, dir@, behind),
                    },
                    noted == repeats_in_all(Map::empty(), dir@, views),
                    noted == texts(found@) + repeats_from(
                        globs@,
                        dir@,
                        holder@,
                        licenses.skip(j as int),
                        behind,
                    ),
                decreases tables@[i as int].1@.len() - j,
            {
                proof {
                    let rest = licenses.skip(j as int);
                    assert(rest[0] == licenses[j as int]);
                    assert(rest.drop_first() == licenses.skip(j + 1));
                    assert(texts(found@) + Seq::<Seq<char>>::empty() =~= texts(found@));
                }
                // globs in config files are resolved relative
                // to the directory where the config file is in
                let glob = match join_glob(dir, tables[i].1[j].0.as_str()) {
                    Ok(glob) => glob,
                    Err(e) => {
                        return (Err(ConfigError::NotUtf8(describe(&e))), found);
                    },
                };
                let license = Arc::new(tables[i].1[j].1.clone());
                let ghost key = glob@;
                let ghost listed = texts(found@);
                let ghost before = globs@;
                let again = glob.clone();
                match globs.claim(glob, share(&holder), license) {
                    Ok(fresh) => {
                        if !fresh {
                            found.push(again);
                            proof {
                                let more = repeats_from(
                                    globs@,
                                    dir@,
                                    holder@,
                                    licenses.skip(j + 1),
                                    behind,
                                );
                                assert(texts(found@) =~= listed.push(key));
                                assert(listed + (seq![key] + more) =~= texts(found@) + more);
                            }
                        }
                    },
                    Err(conflict) => {
                        return (Err(ConfigError::Conflict(conflict)), found);
                    },
                }
                j += 1;
            }
            i += 1;
        }
        assert(texts(found@) + Seq::<Seq<char>>::empty() =~= texts(found@));
        (Ok(Config { globs }), found)
    }

    /// Build the config from the tables of a config file that stands in the
    /// directory `dir`: each holder with its globs and their licenses. Each
    /// glob is joined to the directory. The holders are taken in their order
    /// and the globs of each in theirs, up to the first failure.
    pub fn from_tables(dir: &str, tables: Vec<(String, Vec<(String, String)>)>) -> (r: Result<
        Config,
        ConfigError,
    >)
        ensures
            match r {
                Ok(config) => config.wf() && take_in_all(
                    Map::empty(),
                    dir@,
                    table_views(tables@),
                ) == Ok::<Map<Seq<char>, Pair>, ConfigFault>(config@),
                Err(e) => take_in_all(Map::empty(), dir@, table_views(tables@)) == Err::<
                    Map<Seq<char>, Pair>,
                    ConfigFault,
                >(e@),
            },
    {
        Config::take_in_tables(dir, &tables).0
    }

    /// The globs that the config file at `path` gives more than once, each
    /// time with the same holder and license, up to its first failure: the
    /// globs that `build` passes over.
    pub fn repeated_in_file(path: &str, text: &str) -> (r: Vec<String>)
        ensures
            texts(r@) == file_repeats(path@, text@),
    {
        let raw = match parse_tables(text) {
            Ok(raw) => raw,
            Err(_) => {
                let none: Vec<String> = Vec::new();
                assert(texts(none@) =~= Seq::empty());
                return none;
            },
        };
        let parent = match parent_of(path) {
            Some(parent) => parent,
            None => {
                let none: Vec<String> = Vec::new();
                assert(texts(none@) =~= Seq::empty());
                return none;
            },
        };
        Config::take_in_tables(parent.as_str(), &raw).1
    }

    /// Build the config from the text of the config file at `path`, error if
    /// conflicts are detected
    ///
    /// The globs specified in the config file are relative to the parent directory
    /// of `path`. A glob that comes again with the same holder and license
    /// is passed over; `repeated_in_file` names those.
    pub fn build(path: &str, text: &str) -> (r: Result<Config, ConfigError>)
        ensures
            match r {
                Ok(config) => config.wf() && built(path@, text@) == Ok::<
                    Map<Seq<char>, Pair>,
                    ConfigFault,
                >(config@),
                Err(e) => built(path@, text@) == Err::<Map<Seq<char>, Pair>, ConfigFault>(e@),
            },
            path@.len() == 0 ==> r is Err,
    {
        let raw = match parse_tables(text) {
            Ok(raw) => raw,
            Err(e) => {
                return Err(ConfigError::Malformed(describe(&e)));
            },
        };
        let parent = match parent_of(path) {
            Some(parent) => parent,
            None => {
                return Err(ConfigError::NoParent);
            },
        };
        Config::from_tables(parent.as_str(), raw)
    }

    /// Merge another config into self, error if conflicts are detected.
    /// The globs of `other` are taken in one by one, in their order, up to
    /// the first that conflicts. A glob that self holds already with the
    /// same holder and license is passed over; `shared_globs` names those.
    pub fn absorb(&mut self, other: Config) -> (r: Result<(), ConfigError>)
        requires
            old(self).wf(),
            other.wf(),
        ensures
            final(self).wf(),
            final(self)@ == absorbed(old(self)@, other.list()).0,
            match r {
                Ok(()) => absorbed(old(self)@, other.list()).1 is None,
                Err(e) => e matches ConfigError::Conflict(conflict) && absorbed(
                    old(self)@,
                    other.list(),
                ).1 == Some(conflict@),
            },
    {
        let entries = other.globs.into_entries();
        let ghost list = entry_views(entries@);
        let mut n: usize = 0;
        assert(list.skip(0) == list);
        while n < entries.len()
            invariant
                n <= entries@.len(),
                list == entry_views(entries@),
                list == other.list(),
                self.wf(),
                absorbed(old(self)@, list) == absorbed(self@, list.skip(n as int)),
            decreases entries@.len() - n,
        {
            let glob = entries[n].0.clone();
            let holder = share(&entries[n].1);
            let license = share(&entries[n].2);
            proof {
                let rest = list.skip(n as int);
                assert(rest[0] == list[n as int]);
                assert(rest.drop_first() == list.skip(n + 1));
            }
            match self.globs.claim(glob, holder, license) {
                Ok(_) => {},
                Err(conflict) => {
                    return Err(ConfigError::Conflict(conflict));
                },
            }
            n += 1;
        }
        Ok(())
    }

    /// The globs in their order.
    pub fn globs(&self) -> (r: Vec<String>)
        ensures
            r@.len() == self.list().len(),
            forall|i: int| 0 <= i < r@.len() ==> (#[trigger] r@[i])@ == self.list()[i].0,
    {
        self.globs.keys()
    }

    /// The resolved globs in their order, as (glob, holder, license)
    pub fn into_iter(self) -> (r: Vec<Entry>)
        requires
            self.wf(),
        ensures
            entry_views(r@) == self.list(),
    {
        self.globs.into_entries()
    }
}

/// What becomes of a mapping that takes in the config file at a path: where
/// the file gives a mapping, the globs of that are taken in, in their order,
/// up to the first that conflicts; where it gives none, the mapping stays as
/// it was and the failure of the file is the failure.
pub open spec fn merged(mapping: Map<Seq<char>, Pair>, path: Seq<char>, text: Seq<char>) -> (
    Map<Seq<char>, Pair>,
    Option<ConfigFault>,
) {
    match built(path, text) {
        Err(fault) => (mapping, Some(fault)),
        Ok(other) => (
            absorbed(mapping, ordered(other)).0,
            match absorbed(mapping, ordered(other)).1 {
                Some(clash) => Some(ConfigFault::Conflict(clash)),
                None => None,
            },
        ),
    }
}

/// Builds the config of the config file at `path` from its text and merges
/// it into `config`, error if the file gives no config or conflicts are
/// detected.
pub fn merge_file(config: &mut Config, path: &str, text: &str) -> (r: Result<(), ConfigError>)
    requires
        old(config).wf(),
    ensures
        final(config).wf(),
        final(config)@ == merged(old(config)@, path@, text@).0,
        match r {
            Ok(()) => merged(old(config)@, path@, text@).1 is None,
            Err(e) => merged(old(config)@, path@, text@).1 == Some(e@),
        },
{
    let other = match Config::build(path, text) {
        Ok(other) => other,
        Err(e) => {
            return Err(e);
        },
    };
    proof {
        other.lemma_view();
    }
    config.absorb(other)
}

/// The globs that a mapping holds already, with the same holder and
/// license, of those that the config file at a path gives: the globs that a
/// merge of the file passes over. None for a file that gives no mapping.
pub open spec fn file_shares(mapping: Map<Seq<char>, Pair>, path: Seq<char>, text: Seq<char>) -> Seq<
    Seq<char>,
> {
    match built(path, text) {
        Err(_) => Seq::empty(),
        Ok(other) => shared(mapping, ordered(other)),
    }
}

/// The globs of the config file at `path` that `config` holds already with
/// the same holder and license: the globs that `merge_file` passes over.
pub fn shared_with_file(config: &Config, path: &str, text: &str) -> (r: Vec<String>)
    requires
        config.wf(),
    ensures
        texts(r@) == file_shares(config@, path@, text@),
{
    match Config::build(path, text) {
        Ok(other) => {
            proof {
                other.lemma_view();
            }
            config.shared_globs(&other)
        },
        Err(_) => {
            let none: Vec<String> = Vec::new();
            assert(texts(none@) =~= Seq::empty());
            none
        },
    }
}

} // verus!
