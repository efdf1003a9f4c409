//! The synchronization engine: the session's in-memory state — path index,
//! value map, metadata, last search result — and the decisions that keep it
//! and the record store consistent.
//!
//! All remote and file traffic stays outside: a caller reads or writes the
//! cache files and talks to the remote service, and hands this engine plain
//! values. The engine decides cache-hit against remote-refetch, folds loaded
//! or fetched records into the index and the value map, and computes exactly
//! what must be appended to, patched into, or rewritten in the store.

use crate::assoc::{assoc_get, assoc_set};
use crate::completion::{
    command_matches, completions_model, filtered_requalified, insert_candidate, lookup_path_of,
    prefix_of_input, selected_key, selected_of, set_candidate, value_or_empty,
};
use crate::encryptor::{
    decrypted_rel, encrypted_rel, encrypt_value, decrypt_value, Encryptor, MAX_VALUE_LEN,
};
use crate::path_index::{insert_path, parent_of, wf, IndexView, PathIndex};
use crate::record_store::{record_line, records_of, serialized_records};
use crate::root_path;
use crate::strutil::{
    contains_seq, last_index_of, lemma_last_index_of, lower_of, str_contains, str_starts_with,
    string_push, to_lowercase,
};
use crate::value_map::{MapView, ValueMap};
use vstd::prelude::*;

verus! {

// ---------------------------------------------------------------------------
// Errors
// ---------------------------------------------------------------------------

/// Configuration the session cannot start with.
#[derive(Clone, Copy, Debug, PartialEq, Eq, Structural)]
pub enum ConfigError {
    /// The base path does not start with the path delimiter.
    BasePathNotAbsolute,
}

// ---------------------------------------------------------------------------
// Models
// ---------------------------------------------------------------------------

/// The index a session starts from: the root key alone.
pub open spec fn fresh_index() -> IndexView {
    Seq::empty().push((root_path(), Seq::<Seq<char>>::empty()))
}

/// The command keywords the session completes, in order.
pub open spec fn command_list() -> Seq<Seq<char>> {
    seq![
        "exit"@,
        "refresh"@,
        "reload"@,
        "set"@,
        "select"@,
        "insert"@,
        "search"@,
        "migration"@,
    ]
}

/// What registering the stateful command keys does to an index.
pub open spec fn add_commands_model(m: IndexView) -> IndexView {
    let m1 = assoc_set(m, "set"@, Seq::<Seq<char>>::empty());
    let m2 = assoc_set(m1, "select"@, Seq::<Seq<char>>::empty());
    let m3 = assoc_set(m2, "insert"@, Seq::<Seq<char>>::empty());
    let m4 = assoc_set(m3, "search"@, Seq::<Seq<char>>::empty());
    let m5 = assoc_set(m4, "refresh"@, Seq::<Seq<char>>::empty());
    let m6 = assoc_set(m5, "reload"@, Seq::<Seq<char>>::empty());
    assoc_set(m6, "exit"@, Seq::<Seq<char>>::empty())
}

/// The index a load starts from, before any record arrives: a fresh index
/// with the base path walked in and the command keys registered.
pub open spec fn reset_index(base: Seq<char>) -> IndexView {
    add_commands_model(insert_path(fresh_index(), base))
}

/// Records folded into an index: each record's path is inserted, in order.
pub open spec fn loaded_index(m: IndexView, recs: MapView) -> IndexView
    decreases recs.len(),
{
    if recs.len() == 0 {
        m
    } else {
        loaded_index(insert_path(m, recs[0].0), recs.drop_first())
    }
}

/// Records folded into a value map with the given decoded texts.
pub open spec fn loaded_values(vm: MapView, recs: MapView, plains: Seq<Seq<char>>) -> MapView
    decreases recs.len(),
{
    if recs.len() == 0 {
        vm
    } else {
        loaded_values(assoc_set(vm, recs[0].0, plains[0]), recs.drop_first(), plains.drop_first())
    }
}

/// Each stored text decodes to its given plain text.
pub open spec fn all_decrypted(
    enabled: bool,
    key: Seq<u8>,
    recs: MapView,
    plains: Seq<Seq<char>>,
) -> bool {
    &&& plains.len() == recs.len()
    &&& forall|i: int|
        0 <= i < recs.len() ==> decrypted_rel(enabled, key, recs[i].1, #[trigger] plains[i])
}

/// Each plain text encodes to its given stored text.
pub open spec fn all_encrypted(
    enabled: bool,
    key: Seq<u8>,
    recs: MapView,
    encs: Seq<Seq<char>>,
) -> bool {
    &&& encs.len() == recs.len()
    &&& forall|i: int|
        0 <= i < recs.len() ==> encrypted_rel(enabled, key, recs[i].1, #[trigger] encs[i])
}

/// The records with their values replaced one for one.
pub open spec fn rekeyed(recs: MapView, encs: Seq<Seq<char>>) -> MapView {
    Seq::new(recs.len(), |i: int| (recs[i].0, encs[i]))
}

/// A page of fetched records folded into a value map.
pub open spec fn page_values(vm: MapView, recs: MapView) -> MapView
    decreases recs.len(),
{
    if recs.len() == 0 {
        vm
    } else {
        page_values(assoc_set(vm, recs[0].0, recs[0].1), recs.drop_first())
    }
}

/// The cached paths whose lowercase form contains `term`, in map order.
pub open spec fn search_matches(vm: MapView, term: Seq<char>) -> Seq<Seq<char>>
    decreases vm.len(),
{
    if vm.len() == 0 {
        Seq::empty()
    } else if contains_seq(lower_of(vm[0].0), term) {
        seq![vm[0].0] + search_matches(vm.drop_first(), term)
    } else {
        search_matches(vm.drop_first(), term)
    }
}

/// The base path with each delimiter replaced by an underscore: the stem of
/// the session's cache file names.
pub open spec fn sanitized(b: Seq<char>) -> Seq<char> {
    b.map_values(|c: char| if c == '/' { '_' } else { c })
}

/// The name of the session's value file.
pub open spec fn values_file_model(b: Seq<char>) -> Seq<char> {
    "values_"@ + sanitized(b) + ".txt"@
}

/// The name of the session's index file.
pub open spec fn parameters_file_model(b: Seq<char>) -> Seq<char> {
    "parameters_"@ + sanitized(b) + ".txt"@
}

/// One serialized quoted child name.
pub open spec fn quoted(s: Seq<char>) -> Seq<char> {
    seq!['"'] + s + seq!['"']
}

/// The quoted child names joined with comma-space.
pub open spec fn joined_children(cs: Seq<Seq<char>>) -> Seq<char>
    decreases cs.len(),
{
    if cs.len() == 0 {
        Seq::empty()
    } else if cs.len() == 1 {
        quoted(cs[0])
    } else {
        quoted(cs[0]) + seq![',', ' '] + joined_children(cs.drop_first())
    }
}

/// The serialized child list of one index key.
pub open spec fn children_text(cs: Seq<Seq<char>>) -> Seq<char> {
    seq!['['] + joined_children(cs) + seq![']']
}

/// The serialized form of a whole index: one newline-terminated line per
/// key, `"<path>: [<children>]"`.
pub open spec fn serialized_index(m: IndexView) -> Seq<char>
    decreases m.len(),
{
    if m.len() == 0 {
        Seq::empty()
    } else {
        record_line(m[0].0, children_text(m[0].1)) + seq!['\n'] + serialized_index(m.drop_first())
    }
}

// ---------------------------------------------------------------------------
// Supporting lemmas
// ---------------------------------------------------------------------------

/// A key without a delimiter has the root as its parent.
proof fn lemma_no_delim_parent(k: Seq<char>)
    requires
        forall|j: int| 0 <= j < k.len() ==> k[j] != '/',
    ensures
        parent_of(k) == root_path(),
{
    lemma_last_index_of(k, '/');
    if last_index_of(k, '/') >= 0 {
        assert(k[last_index_of(k, '/')] == '/');
    }
}

/// Folding one more record into a value map.
proof fn lemma_loaded_values_push(
    vm: MapView,
    recs: MapView,
    plains: Seq<Seq<char>>,
    rec: (Seq<char>, Seq<char>),
    p: Seq<char>,
)
    requires
        plains.len() == recs.len(),
    ensures
        loaded_values(vm, recs.push(rec), plains.push(p)) == assoc_set(
            loaded_values(vm, recs, plains),
            rec.0,
            p,
        ),
    decreases recs.len(),
{
    if recs.len() == 0 {
        assert(recs.push(rec)[0] == rec);
        assert(recs.push(rec).drop_first() =~= recs);
        assert(plains.push(p).drop_first() =~= plains);
        assert(plains.push(p)[0] == p);
        assert(loaded_values(vm, recs.push(rec), plains.push(p)) == loaded_values(
            assoc_set(vm, rec.0, p),
            recs,
            plains,
        ));
        assert(loaded_values(assoc_set(vm, rec.0, p), recs, plains) == assoc_set(vm, rec.0, p));
        assert(loaded_values(vm, recs, plains) == vm);
    } else {
        let vm2 = assoc_set(vm, recs[0].0, plains[0]);
        lemma_loaded_values_push(vm2, recs.drop_first(), plains.drop_first(), rec, p);
        assert(recs.push(rec)[0] == recs[0]);
        assert(plains.push(p)[0] == plains[0]);
        assert(recs.push(rec).drop_first() =~= recs.drop_first().push(rec));
        assert(plains.push(p).drop_first() =~= plains.drop_first().push(p));
        assert(loaded_values(vm, recs.push(rec), plains.push(p)) == loaded_values(
            vm2,
            recs.drop_first().push(rec),
            plains.drop_first().push(p),
        ));
        assert(loaded_values(vm, recs, plains) == loaded_values(
            vm2,
            recs.drop_first(),
            plains.drop_first(),
        ));
    }
}

/// Serializing one more record appends its line.
proof fn lemma_serialized_records_push(s: MapView, x: (Seq<char>, Seq<char>))
    ensures
        serialized_records(s.push(x)) == serialized_records(s) + record_line(x.0, x.1) + seq![
            '\n',
        ],
    decreases s.len(),
{
    if s.len() == 0 {
        assert(s.push(x)[0] == x);
        assert(s.push(x).drop_first() =~= s);
        assert(serialized_records(s.push(x)) =~= serialized_records(s) + record_line(x.0, x.1)
            + seq!['\n']);
    } else {
        lemma_serialized_records_push(s.drop_first(), x);
        assert(s.push(x)[0] == s[0]);
        assert(s.push(x).drop_first() =~= s.drop_first().push(x));
        assert(serialized_records(s.push(x)) =~= serialized_records(s) + record_line(x.0, x.1)
            + seq!['\n']);
    }
}

/// Joining one more child name appends a separator and its quoted form.
proof fn lemma_joined_children_push(cs: Seq<Seq<char>>, x: Seq<char>)
    ensures
        joined_children(cs.push(x)) == if cs.len() == 0 {
            quoted(x)
        } else {
            joined_children(cs) + seq![',', ' '] + quoted(x)
        },
    decreases cs.len(),
{
    if cs.len() == 0 {
        assert(cs.push(x)[0] == x);
        assert(cs.push(x).len() == 1);
    } else {
        lemma_joined_children_push(cs.drop_first(), x);
        assert(cs.push(x)[0] == cs[0]);
        assert(cs.push(x).drop_first() =~= cs.drop_first().push(x));
        if cs.len() == 1 {
            assert(joined_children(cs.push(x)) =~= joined_children(cs) + seq![',', ' '] + quoted(
                x,
            ));
        } else {
            assert(joined_children(cs.push(x)) =~= joined_children(cs) + seq![',', ' '] + quoted(
                x,
            ));
        }
    }
}

// ---------------------------------------------------------------------------
// The engine
// ---------------------------------------------------------------------------

/// The session's state and its synchronization decisions.
pub struct SyncEngine {
    base_path: String,
    encryptor: Encryptor,
    index: PathIndex,
    values: ValueMap,
    metadata: ValueMap,
    search_result: Vec<String>,
    commands: Vec<String>,
}

impl SyncEngine {
    /// The base path scoping the mirrored subtree.
    pub closed spec fn spec_base(&self) -> Seq<char> {
        self.base_path@
    }

    /// Whether value encryption is on.
    pub closed spec fn spec_enabled(&self) -> bool {
        self.encryptor.spec_enabled()
    }

    /// The key values are sealed under.
    pub closed spec fn spec_key(&self) -> Seq<u8> {
        self.encryptor.spec_key()
    }

    /// The path index.
    pub closed spec fn spec_index(&self) -> IndexView {
        self.index@
    }

    /// The decoded value map.
    pub closed spec fn spec_values(&self) -> MapView {
        self.values@
    }

    /// The session metadata.
    pub closed spec fn spec_metadata(&self) -> MapView {
        self.metadata@
    }

    /// The last search result.
    pub closed spec fn spec_search(&self) -> Seq<Seq<char>> {
        self.search_result.deep_view()
    }

    /// The command keywords.
    pub closed spec fn spec_commands(&self) -> Seq<Seq<char>> {
        self.commands.deep_view()
    }

    /// The engine invariant: the index is well-formed — the root key is
    /// present and every non-root key's parent is a key — and the base path
    /// starts with the delimiter.
    pub open spec fn inv(&self) -> bool {
        &&& wf(self.spec_index())
        &&& self.spec_base().len() > 0
        &&& self.spec_base()[0] == '/'
    }

    /// A fresh session over `base_path`; a base path that does not start
    /// with the delimiter is fatal at startup.
    pub fn new(base_path: String, encryptor: Encryptor) -> (r: Result<SyncEngine, ConfigError>)
        ensures
            r is Ok <==> base_path@.len() > 0 && base_path@[0] == '/',
            r matches Ok(s) ==> {
                &&& s.inv()
                &&& s.spec_base() == base_path@
                &&& s.spec_enabled() == encryptor.spec_enabled()
                &&& s.spec_key() == encryptor.spec_key()
                &&& s.spec_index() == fresh_index()
                &&& s.spec_values() == Seq::<(Seq<char>, Seq<char>)>::empty()
                &&& s.spec_metadata() == Seq::<(Seq<char>, Seq<char>)>::empty()
                &&& s.spec_search() == Seq::<Seq<char>>::empty()
                &&& s.spec_commands() == command_list()
            },
            r matches Err(e) ==> e == ConfigError::BasePathNotAbsolute,
    {
        let n = base_path.as_str().unicode_len();
        if n == 0 || base_path.as_str().get_char(0) != '/' {
            return Err(ConfigError::BasePathNotAbsolute);
        }
        let mut commands: Vec<String> = Vec::new();
        commands.push("exit".to_owned());
        commands.push("refresh".to_owned());
        commands.push("reload".to_owned());
        commands.push("set".to_owned());
        commands.push("select".to_owned());
        commands.push("insert".to_owned());
        commands.push("search".to_owned());
        commands.push("migration".to_owned());
        let r = SyncEngine {
            base_path,
            encryptor,
            index: PathIndex::new(),
            values: ValueMap::new(),
            metadata: ValueMap::new(),
            search_result: Vec::new(),
            commands,
        };
        proof {
            assert(r.spec_commands() =~~= command_list());
            assert(r.spec_search() =~~= Seq::<Seq<char>>::empty());
        }
        Ok(r)
    }

    /// Register the stateful command keys in the index.
    fn add_commands(&mut self)
        requires
            old(self).inv(),
        ensures
            final(self).inv(),
            final(self).spec_index() == add_commands_model(old(self).spec_index()),
            final(self).spec_values() == old(self).spec_values(),
            final(self).spec_metadata() == old(self).spec_metadata(),
            final(self).spec_search() == old(self).spec_search(),
            final(self).spec_commands() == old(self).spec_commands(),
            final(self).spec_base() == old(self).spec_base(),
            final(self).spec_enabled() == old(self).spec_enabled(),
            final(self).spec_key() == old(self).spec_key(),
    {
        proof {
            reveal_strlit("set");
            reveal_strlit("select");
            reveal_strlit("insert");
            reveal_strlit("search");
            reveal_strlit("refresh");
            reveal_strlit("reload");
            reveal_strlit("exit");
            lemma_no_delim_parent("set"@);
            lemma_no_delim_parent("select"@);
            lemma_no_delim_parent("insert"@);
            lemma_no_delim_parent("search"@);
            lemma_no_delim_parent("refresh"@);
            lemma_no_delim_parent("reload"@);
            lemma_no_delim_parent("exit"@);
        }
        self.index.register("set");
        self.index.register("select");
        self.index.register("insert");
        self.index.register("search");
        self.index.register("refresh");
        self.index.register("reload");
        self.index.register("exit");
    }

    /// The stem of the cache file names: the base path with each delimiter
    /// replaced by an underscore.
    fn sanitized_base(&self) -> (r: String)
        ensures
            r@ == sanitized(self.spec_base()),
    {
        let b = self.base_path.as_str();
        let n = b.unicode_len();
        let mut out = String::new();
        let mut i: usize = 0;
        while i < n
            invariant
                0 <= i <= n,
                n == b@.len(),
                b@ == self.spec_base(),
                out@.len() == i,
                forall|j: int|
                    0 <= j < i ==> out@[j] == (if b@[j] == '/' {
                        '_'
                    } else {
                        b@[j]
                    }),
            decreases n - i,
        {
            let c = b.get_char(i);
            if c == '/' {
                string_push(&mut out, '_');
            } else {
                string_push(&mut out, c);
            }
            i += 1;
        }
        proof {
            assert(out@ =~= sanitized(self.spec_base()));
        }
        out
    }

    /// The name of the session's value file.
    pub fn values_file_name(&self) -> (r: String)
        ensures
            r@ == values_file_model(self.spec_base()),
    {
        let mut out = String::from_str("values_");
        out.append(self.sanitized_base().as_str());
        out.append(".txt");
        out
    }

    /// The name of the session's index file.
    pub fn parameters_file_name(&self) -> (r: String)
        ensures
            r@ == parameters_file_model(self.spec_base()),
    {
        let mut out = String::from_str("parameters_");
        out.append(self.sanitized_base().as_str());
        out.append(".txt");
        out
    }

    /// The decoded cached value of `path`, if one is cached.
    pub fn get_value(&self, path: &str) -> (r: Option<String>)
        ensures
            r is Some <==> assoc_get(self.spec_values(), path@) is Some,
            r matches Some(v) ==> assoc_get(self.spec_values(), path@) == Some(v@),
    {
        self.values.get(path)
    }

    /// Substring search over the cached paths: the matching paths, which
    /// also become the session's last search result.
    pub fn search(&mut self, term: &str) -> (r: Vec<String>)
        requires
            old(self).inv(),
        ensures
            final(self).inv(),
            r.deep_view() == search_matches(old(self).spec_values(), term@),
            final(self).spec_search() == r.deep_view(),
            final(self).spec_values() == old(self).spec_values(),
            final(self).spec_index() == old(self).spec_index(),
            final(self).spec_metadata() == old(self).spec_metadata(),
            final(self).spec_commands() == old(self).spec_commands(),
            final(self).spec_base() == old(self).spec_base(),
            final(self).spec_enabled() == old(self).spec_enabled(),
            final(self).spec_key() == old(self).spec_key(),
    {
        let ghost vm = self.values@;
        let n = self.values.len();
        let mut out: Vec<String> = Vec::new();
        proof {
            assert(vm.skip(0) == vm);
            assert(out.deep_view() =~~= Seq::<Seq<char>>::empty());
            assert(out.deep_view() + search_matches(vm, term@) =~~= search_matches(vm, term@));
        }
        let mut i: usize = 0;
        while i < n
            invariant
                0 <= i <= n,
                n == self.values@.len(),
                vm == self.values@,
                search_matches(vm, term@) == out.deep_view() + search_matches(
                    vm.skip(i as int),
                    term@,
                ),
            decreases n - i,
        {
            let ghost out_before = out.deep_view();
            proof {
                assert(vm.skip(i as int)[0] == vm[i as int]);
                assert(vm.skip(i as int).drop_first() =~= vm.skip(i as int + 1));
            }
            let key = self.values.key_at(i);
            let lowered = to_lowercase(key.as_str());
            if str_contains(lowered.as_str(), term) {
                out.push(key.clone());
                proof {
                    assert(out.deep_view() =~~= out_before.push(out@[out@.len() - 1]@));
                    assert(out.deep_view() + search_matches(vm.skip(i as int + 1), term@) =~~=
                        out_before + search_matches(vm.skip(i as int), term@));
                }
            }
            i += 1;
        }
        proof {
            assert(vm.skip(n as int) =~= Seq::<(Seq<char>, Seq<char>)>::empty());
            assert(out.deep_view() + search_matches(vm.skip(n as int), term@) =~~=
                out.deep_view());
        }
        let stored = crate::strutil::clone_string_vec(&out);
        self.search_result = stored;
        proof {
            assert(self.search_result.deep_view() =~~= out.deep_view());
        }
        out
    }

    /// Select the entry of the last search result at `idx`, if it exists:
    /// it becomes the session's selected path.
    pub fn select_index(&mut self, idx: usize) -> (r: Option<String>)
        requires
            old(self).inv(),
        ensures
            final(self).inv(),
            r is Some <==> idx < old(self).spec_search().len(),
            r matches Some(s) ==> s@ == old(self).spec_search()[idx as int]
                && final(self).spec_metadata() == assoc_set(
                old(self).spec_metadata(),
                selected_key(),
                s@,
            ),
            r is None ==> final(self).spec_metadata() == old(self).spec_metadata(),
            final(self).spec_values() == old(self).spec_values(),
            final(self).spec_index() == old(self).spec_index(),
            final(self).spec_search() == old(self).spec_search(),
            final(self).spec_commands() == old(self).spec_commands(),
            final(self).spec_base() == old(self).spec_base(),
            final(self).spec_enabled() == old(self).spec_enabled(),
            final(self).spec_key() == old(self).spec_key(),
    {
        if idx < self.search_result.len() {
            let chosen = self.search_result[idx].clone();
            proof {
                reveal_strlit("selected");
                assert("selected"@ =~= selected_key());
                assert(chosen@ == self.spec_search()[idx as int]);
            }
            self.metadata.insert("selected", chosen.clone());
            Some(chosen)
        } else {
            None
        }
    }

    /// Select `path` literally: it becomes the session's selected path, and
    /// its cached value, if any, is returned.
    pub fn select_path(&mut self, path: &str) -> (r: Option<String>)
        requires
            old(self).inv(),
        ensures
            final(self).inv(),
            final(self).spec_metadata() == assoc_set(
                old(self).spec_metadata(),
                selected_key(),
                path@,
            ),
            r is Some <==> assoc_get(old(self).spec_values(), path@) is Some,
            r matches Some(v) ==> assoc_get(old(self).spec_values(), path@) == Some(v@),
            final(self).spec_values() == old(self).spec_values(),
            final(self).spec_index() == old(self).spec_index(),
            final(self).spec_search() == old(self).spec_search(),
            final(self).spec_commands() == old(self).spec_commands(),
            final(self).spec_base() == old(self).spec_base(),
            final(self).spec_enabled() == old(self).spec_enabled(),
            final(self).spec_key() == old(self).spec_key(),
    {
        proof {
            reveal_strlit("selected");
            assert("selected"@ =~= selected_key());
        }
        self.metadata.insert("selected", path.to_owned());
        self.values.get(path)
    }
}

/// Whether the cache was accepted or a remote traversal is owed.
#[derive(Clone, Copy, Debug, PartialEq, Eq, Structural)]
pub enum LoadStart {
    /// Both cache files were read: the session runs from the cache.
    CacheHit,
    /// A refresh was asked for, or a cache file was missing: the caller owes
    /// a full paginated remote traversal through `apply_page`, then
    /// `finish_load` to persist it.
    NeedRemote,
}

/// One serialized record line, `"<key>: <value>"`, without a newline.
fn make_record_line(key: &str, value: &str) -> (r: String)
    ensures
        r@ == record_line(key@, value@),
{
    let mut out = key.to_owned();
    string_push(&mut out, ':');
    string_push(&mut out, ' ');
    out.append(value);
    proof {
        assert(out@ =~= record_line(key@, value@));
    }
    out
}

/// The serialized child list of one index key: the quoted names, joined with
/// comma-space, in brackets.
fn serialize_children(kids: &Vec<String>) -> (r: String)
    ensures
        r@ == children_text(kids.deep_view()),
{
    let ghost cs = kids.deep_view();
    let n = kids.len();
    let mut out = String::new();
    string_push(&mut out, '[');
    proof {
        assert(cs.take(0) =~= Seq::<Seq<char>>::empty());
        assert(out@ =~= seq!['['] + joined_children(cs.take(0)));
    }
    let mut j: usize = 0;
    while j < n
        invariant
            0 <= j <= n,
            n == kids@.len(),
            cs == kids.deep_view(),
            out@ == seq!['['] + joined_children(cs.take(j as int)),
        decreases n - j,
    {
        let ghost out_before = out@;
        if j > 0 {
            string_push(&mut out, ',');
            string_push(&mut out, ' ');
        }
        string_push(&mut out, '"');
        out.append(kids[j].as_str());
        string_push(&mut out, '"');
        proof {
            lemma_joined_children_push(cs.take(j as int), cs[j as int]);
            assert(cs.take(j as int).push(cs[j as int]) =~= cs.take(j as int + 1));
            assert(kids@[j as int]@ == cs[j as int]);
            if j == 0 {
                assert(joined_children(cs.take(0)) =~= Seq::<char>::empty());
                assert(out@ =~= seq!['['] + joined_children(cs.take(1)));
            } else {
                assert(out@ =~= seq!['['] + joined_children(cs.take(j as int + 1)));
            }
        }
        j += 1;
    }
    string_push(&mut out, ']');
    proof {
        assert(cs.take(n as int) =~= cs);
        assert(out@ =~= children_text(cs));
    }
    out
}

/// The serialized form of a whole index, one line per key.
fn serialize_index_entries(index: &PathIndex) -> (r: String)
    ensures
        r@ == serialized_index(index@),
{
    let ghost m = index@;
    let n = index.entry_count();
    let mut out = String::new();
    proof {
        assert(m.skip(0) == m);
        assert(out@ + serialized_index(m) =~= serialized_index(m));
    }
    let mut i: usize = 0;
    while i < n
        invariant
            0 <= i <= n,
            n == index@.len(),
            m == index@,
            serialized_index(m) == out@ + serialized_index(m.skip(i as int)),
        decreases n - i,
    {
        let ghost out_before = out@;
        proof {
            assert(m.skip(i as int)[0] == m[i as int]);
            assert(m.skip(i as int).drop_first() =~= m.skip(i as int + 1));
        }
        let kids_text = serialize_children(index.children_at(i));
        let line = make_record_line(index.path_at(i).as_str(), kids_text.as_str());
        out.append(line.as_str());
        string_push(&mut out, '\n');
        proof {
            assert(out@ =~= out_before + record_line(m[i as int].0, children_text(m[i as int].1))
                + seq!['\n']);
        }
        i += 1;
    }
    proof {
        assert(m.skip(n as int) =~= Seq::<(Seq<char>, Seq<Seq<char>>)>::empty());
        assert(out@ + serialized_index(m.skip(n as int)) =~= out@);
    }
    out
}

impl SyncEngine {
    /// Fold a parameters file's records into the index: each record's path
    /// is inserted, in line order.
    fn load_parameters_from_text(&mut self, content: &str)
        requires
            old(self).inv(),
        ensures
            final(self).inv(),
            final(self).spec_index() == loaded_index(old(self).spec_index(), records_of(content@)),
            final(self).spec_values() == old(self).spec_values(),
            final(self).spec_metadata() == old(self).spec_metadata(),
            final(self).spec_search() == old(self).spec_search(),
            final(self).spec_commands() == old(self).spec_commands(),
            final(self).spec_base() == old(self).spec_base(),
            final(self).spec_enabled() == old(self).spec_enabled(),
            final(self).spec_key() == old(self).spec_key(),
    {
        let records = crate::record_store::parse_records(content);
        let ghost recs = records.deep_view();
        let n = records.len();
        let mut i: usize = 0;
        proof {
            assert(recs.skip(0) == recs);
        }
        while i < n
            invariant
                0 <= i <= n,
                n == records@.len(),
                recs == records.deep_view(),
                self.inv(),
                loaded_index(old(self).spec_index(), recs) == loaded_index(
                    self.spec_index(),
                    recs.skip(i as int),
                ),
                self.spec_values() == old(self).spec_values(),
                self.spec_metadata() == old(self).spec_metadata(),
                self.spec_search() == old(self).spec_search(),
                self.spec_commands() == old(self).spec_commands(),
                self.spec_base() == old(self).spec_base(),
                self.spec_enabled() == old(self).spec_enabled(),
                self.spec_key() == old(self).spec_key(),
            decreases n - i,
        {
            proof {
                assert(recs.skip(i as int)[0] == recs[i as int]);
                assert(recs.skip(i as int).drop_first() =~= recs.skip(i as int + 1));
                assert((records@[i as int].0@, records@[i as int].1@) == recs[i as int]);
            }
            self.index.insert(records[i].0.as_str());
            i += 1;
        }
        proof {
            assert(recs.skip(n as int) =~= Seq::<(Seq<char>, Seq<char>)>::empty());
        }
    }

    /// Fold a values file's records into the value map, decoding each stored
    /// value; a value that fails to decode is kept as its sentinel text.
    fn load_values_from_text(&mut self, content: &str)
        requires
            old(self).inv(),
        ensures
            final(self).inv(),
            exists|plains: Seq<Seq<char>>|
                all_decrypted(
                    old(self).spec_enabled(),
                    old(self).spec_key(),
                    records_of(content@),
                    plains,
                ) && final(self).spec_values() == loaded_values(
                    old(self).spec_values(),
                    records_of(content@),
                    plains,
                ),
            final(self).spec_index() == old(self).spec_index(),
            final(self).spec_metadata() == old(self).spec_metadata(),
            final(self).spec_search() == old(self).spec_search(),
            final(self).spec_commands() == old(self).spec_commands(),
            final(self).spec_base() == old(self).spec_base(),
            final(self).spec_enabled() == old(self).spec_enabled(),
            final(self).spec_key() == old(self).spec_key(),
    {
        let records = crate::record_store::parse_records(content);
        let ghost recs = records.deep_view();
        let n = records.len();
        let ghost mut plains: Seq<Seq<char>> = Seq::empty();
        let mut i: usize = 0;
        proof {
            assert(recs.take(0) =~= Seq::<(Seq<char>, Seq<char>)>::empty());
        }
        while i < n
            invariant
                0 <= i <= n,
                n == records@.len(),
                recs == records.deep_view(),
                self.inv(),
                plains.len() == i,
                forall|j: int|
                    0 <= j < i ==> decrypted_rel(
                        old(self).spec_enabled(),
                        old(self).spec_key(),
                        recs[j].1,
                        #[trigger] plains[j],
                    ),
                self.spec_values() == loaded_values(
                    old(self).spec_values(),
                    recs.take(i as int),
                    plains,
                ),
                self.spec_index() == old(self).spec_index(),
                self.spec_metadata() == old(self).spec_metadata(),
                self.spec_search() == old(self).spec_search(),
                self.spec_commands() == old(self).spec_commands(),
                self.spec_base() == old(self).spec_base(),
                self.spec_enabled() == old(self).spec_enabled(),
                self.spec_key() == old(self).spec_key(),
            decreases n - i,
        {
            proof {
                assert((records@[i as int].0@, records@[i as int].1@) == recs[i as int]);
            }
            let decoded = decrypt_value(&self.encryptor, records[i].1.as_str());
            let ghost p = decoded@;
            let ghost vm_before = self.values@;
            self.values.insert(records[i].0.as_str(), decoded);
            proof {
                lemma_loaded_values_push(
                    old(self).spec_values(),
                    recs.take(i as int),
                    plains,
                    recs[i as int],
                    p,
                );
                assert(recs.take(i as int).push(recs[i as int]) =~= recs.take(i as int + 1));
                plains = plains.push(p);
            }
            i += 1;
        }
        proof {
            assert(recs.take(n as int) =~= recs);
        }
    }

    /// Begin a load. The index is reset to the base path and the command
    /// keys, the value map is cleared, and, unless a refresh was asked for,
    /// whatever cache file contents the caller could read are folded in. The
    /// cache counts as hit only when both files were read; otherwise the
    /// caller owes a remote traversal.
    pub fn start_load(&mut self, refresh: bool, index_file: Option<&str>, values_file: Option<
        &str,
    >) -> (r: LoadStart)
        requires
            old(self).inv(),
        ensures
            final(self).inv(),
            r == LoadStart::CacheHit <==> (!refresh && index_file is Some && values_file is Some),
            ({
                let base0 = reset_index(old(self).spec_base());
                final(self).spec_index() == match index_file {
                    Option::Some(t) => if !refresh {
                        loaded_index(base0, records_of(t@))
                    } else {
                        base0
                    },
                    Option::None => base0,
                }
            }),
            values_file matches Some(t) ==> refresh || (exists|plains: Seq<Seq<char>>|
                all_decrypted(
                    old(self).spec_enabled(),
                    old(self).spec_key(),
                    records_of(t@),
                    plains,
                ) && final(self).spec_values() == loaded_values(
                    Seq::<(Seq<char>, Seq<char>)>::empty(),
                    records_of(t@),
                    plains,
                )),
            (refresh || values_file is None) ==> final(self).spec_values() == Seq::<
                (Seq<char>, Seq<char>),
            >::empty(),
            final(self).spec_metadata() == old(self).spec_metadata(),
            final(self).spec_search() == old(self).spec_search(),
            final(self).spec_commands() == old(self).spec_commands(),
            final(self).spec_base() == old(self).spec_base(),
            final(self).spec_enabled() == old(self).spec_enabled(),
            final(self).spec_key() == old(self).spec_key(),
    {
        self.index = PathIndex::new();
        let base = self.base_path.clone();
        self.index.insert(base.as_str());
        self.add_commands();
        self.values = ValueMap::new();
        proof {
            assert(self.values@ =~= Seq::<(Seq<char>, Seq<char>)>::empty());
            assert(self.spec_index() == reset_index(old(self).spec_base()));
        }
        let mut index_loaded = false;
        let mut values_loaded = false;
        if !refresh {
            match index_file {
                Some(content) => {
                    self.load_parameters_from_text(content);
                    index_loaded = true;
                },
                None => {},
            }
            match values_file {
                Some(content) => {
                    self.load_values_from_text(content);
                    values_loaded = true;
                },
                None => {},
            }
        }
        if index_loaded && values_loaded {
            LoadStart::CacheHit
        } else {
            LoadStart::NeedRemote
        }
    }

    /// Fold one fetched page of records into the index and the value map.
    pub fn apply_page(&mut self, entries: &Vec<(String, String)>)
        requires
            old(self).inv(),
        ensures
            final(self).inv(),
            final(self).spec_index() == loaded_index(old(self).spec_index(), entries.deep_view()),
            final(self).spec_values() == page_values(old(self).spec_values(), entries.deep_view()),
            final(self).spec_metadata() == old(self).spec_metadata(),
            final(self).spec_search() == old(self).spec_search(),
            final(self).spec_commands() == old(self).spec_commands(),
            final(self).spec_base() == old(self).spec_base(),
            final(self).spec_enabled() == old(self).spec_enabled(),
            final(self).spec_key() == old(self).spec_key(),
    {
        let ghost recs = entries.deep_view();
        let n = entries.len();
        let mut i: usize = 0;
        proof {
            assert(recs.skip(0) == recs);
        }
        while i < n
            invariant
                0 <= i <= n,
                n == entries@.len(),
                recs == entries.deep_view(),
                self.inv(),
                loaded_index(old(self).spec_index(), recs) == loaded_index(
                    self.spec_index(),
                    recs.skip(i as int),
                ),
                page_values(old(self).spec_values(), recs) == page_values(
                    self.spec_values(),
                    recs.skip(i as int),
                ),
                self.spec_metadata() == old(self).spec_metadata(),
                self.spec_search() == old(self).spec_search(),
                self.spec_commands() == old(self).spec_commands(),
                self.spec_base() == old(self).spec_base(),
                self.spec_enabled() == old(self).spec_enabled(),
                self.spec_key() == old(self).spec_key(),
            decreases n - i,
        {
            proof {
                assert(recs.skip(i as int)[0] == recs[i as int]);
                assert(recs.skip(i as int).drop_first() =~= recs.skip(i as int + 1));
                assert((entries@[i as int].0@, entries@[i as int].1@) == recs[i as int]);
            }
            self.index.insert(entries[i].0.as_str());
            self.values.insert(entries[i].0.as_str(), entries[i].1.clone());
            i += 1;
        }
        proof {
            assert(recs.skip(n as int) =~= Seq::<(Seq<char>, Seq<char>)>::empty());
        }
    }

    /// Serialize the whole session for persistence: the parameters file's
    /// text and the values file's text, every value freshly encoded. A
    /// cached value too long to encode stops the serialization.
    pub fn finish_load(&self) -> (r: Option<(String, String)>)
        ensures
            r is Some <==> (forall|i: int|
                0 <= i < self.spec_values().len() ==> #[trigger] self.spec_values()[i].1.len()
                    <= MAX_VALUE_LEN),
            r matches Some(t) ==> t.0@ == serialized_index(self.spec_index()) && (exists|
                encs: Seq<Seq<char>>,
            |
                all_encrypted(self.spec_enabled(), self.spec_key(), self.spec_values(), encs)
                    && t.1@ == serialized_records(rekeyed(self.spec_values(), encs))),
    {
        let ghost vm = self.values@;
        let n = self.values.len();
        let mut values_text = String::new();
        let ghost mut encs: Seq<Seq<char>> = Seq::empty();
        let mut i: usize = 0;
        proof {
            assert(rekeyed(vm.take(0), encs) =~= Seq::<(Seq<char>, Seq<char>)>::empty());
        }
        while i < n
            invariant
                0 <= i <= n,
                n == self.values@.len(),
                vm == self.values@,
                encs.len() == i,
                forall|j: int|
                    0 <= j < i ==> encrypted_rel(
                        self.spec_enabled(),
                        self.spec_key(),
                        vm[j].1,
                        #[trigger] encs[j],
                    ),
                forall|j: int| 0 <= j < i ==> vm[j].1.len() <= MAX_VALUE_LEN,
                values_text@ == serialized_records(rekeyed(vm.take(i as int), encs)),
            decreases n - i,
        {
            let value = self.values.value_at(i);
            if value.as_str().unicode_len() > MAX_VALUE_LEN {
                proof {
                    assert(self.spec_values()[i as int].1.len() > MAX_VALUE_LEN);
                }
                return None;
            }
            let encoded = encrypt_value(&self.encryptor, value.as_str());
            let ghost e = encoded@;
            let line = make_record_line(self.values.key_at(i).as_str(), encoded.as_str());
            values_text.append(line.as_str());
            string_push(&mut values_text, '\n');
            proof {
                lemma_serialized_records_push(rekeyed(vm.take(i as int), encs), (vm[i as int].0, e));
                assert(rekeyed(vm.take(i as int), encs).push((vm[i as int].0, e)) =~= rekeyed(
                    vm.take(i as int + 1),
                    encs.push(e),
                ));
                encs = encs.push(e);
                assert(values_text@ =~= serialized_records(rekeyed(vm.take(i as int + 1), encs)));
            }
            i += 1;
        }
        proof {
            assert(vm.take(n as int) =~= vm);
            assert(all_encrypted(self.spec_enabled(), self.spec_key(), self.spec_values(), encs)
                && values_text@ == serialized_records(rekeyed(self.spec_values(), encs)));
            assert forall|i: int|
                0 <= i < self.spec_values().len() implies #[trigger] self.spec_values()[i].1.len()
                <= MAX_VALUE_LEN by {}
        }
        let index_text = serialize_index_entries(&self.index);
        Some((index_text, values_text))
    }

    /// Record a brand-new parameter: the path goes into the index, the value
    /// into the map, and the caller gets the newline-terminated encoded line
    /// to append to the values file and the full new text of the parameters
    /// file to rewrite.
    pub fn update_all(&mut self, path: &str, value: &str) -> (r: (String, String))
        requires
            old(self).inv(),
            value@.len() <= MAX_VALUE_LEN,
        ensures
            final(self).inv(),
            final(self).spec_index() == insert_path(old(self).spec_index(), path@),
            final(self).spec_values() == assoc_set(old(self).spec_values(), path@, value@),
            exists|enc: Seq<char>|
                encrypted_rel(old(self).spec_enabled(), old(self).spec_key(), value@, enc)
                    && r.0@ == record_line(path@, enc) + seq!['\n'],
            r.1@ == serialized_index(final(self).spec_index()),
            final(self).spec_metadata() == old(self).spec_metadata(),
            final(self).spec_search() == old(self).spec_search(),
            final(self).spec_commands() == old(self).spec_commands(),
            final(self).spec_base() == old(self).spec_base(),
            final(self).spec_enabled() == old(self).spec_enabled(),
            final(self).spec_key() == old(self).spec_key(),
    {
        self.index.insert(path);
        self.values.insert(path, value.to_owned());
        let encoded = encrypt_value(&self.encryptor, value);
        let mut line = make_record_line(path, encoded.as_str());
        string_push(&mut line, '\n');
        let index_text = serialize_index_entries(&self.index);
        proof {
            assert(line@ =~= record_line(path@, encoded@) + seq!['\n']);
            assert(encrypted_rel(old(self).spec_enabled(), old(self).spec_key(), value@, encoded@)
                && line@ == record_line(path@, encoded@) + seq!['\n']);
        }
        (line, index_text)
    }

    /// Record a new value for an existing parameter: the map takes the
    /// value, and the caller gets the text to search the values file for and
    /// the encoded replacement line to patch in.
    pub fn set_existing(&mut self, path: &str, value: &str) -> (r: (String, String))
        requires
            old(self).inv(),
            value@.len() <= MAX_VALUE_LEN,
        ensures
            final(self).inv(),
            final(self).spec_values() == assoc_set(old(self).spec_values(), path@, value@),
            r.0@ == path@,
            exists|enc: Seq<char>|
                encrypted_rel(old(self).spec_enabled(), old(self).spec_key(), value@, enc)
                    && r.1@ == record_line(path@, enc),
            final(self).spec_index() == old(self).spec_index(),
            final(self).spec_metadata() == old(self).spec_metadata(),
            final(self).spec_search() == old(self).spec_search(),
            final(self).spec_commands() == old(self).spec_commands(),
            final(self).spec_base() == old(self).spec_base(),
            final(self).spec_enabled() == old(self).spec_enabled(),
            final(self).spec_key() == old(self).spec_key(),
    {
        self.values.insert(path, value.to_owned());
        let encoded = encrypt_value(&self.encryptor, value);
        let line = make_record_line(path, encoded.as_str());
        (path.to_owned(), line)
    }

    /// Fold a freshly fetched value for one path back in: nothing happens
    /// for an absent remote record; otherwise the map takes the value and
    /// the caller gets the search text and replacement line to patch the
    /// values file with.
    pub fn reload_one(&mut self, path: &str, fetched: Option<&str>) -> (r: Option<
        (String, String),
    >)
        requires
            old(self).inv(),
            fetched matches Some(v) ==> v@.len() <= MAX_VALUE_LEN,
        ensures
            final(self).inv(),
            fetched is None ==> r is None && final(self).spec_values() == old(self).spec_values(),
            fetched matches Some(v) ==> final(self).spec_values() == assoc_set(
                old(self).spec_values(),
                path@,
                v@,
            ) && (r matches Some(t) && t.0@ == path@ && exists|enc: Seq<char>|
                encrypted_rel(old(self).spec_enabled(), old(self).spec_key(), v@, enc) && t.1@
                    == record_line(path@, enc)),
            final(self).spec_index() == old(self).spec_index(),
            final(self).spec_metadata() == old(self).spec_metadata(),
            final(self).spec_search() == old(self).spec_search(),
            final(self).spec_commands() == old(self).spec_commands(),
            final(self).spec_base() == old(self).spec_base(),
            final(self).spec_enabled() == old(self).spec_enabled(),
            final(self).spec_key() == old(self).spec_key(),
    {
        match fetched {
            None => None,
            Some(value) => {
                self.values.insert(path, value.to_owned());
                let encoded = encrypt_value(&self.encryptor, value);
                let line = make_record_line(path, encoded.as_str());
                Some((path.to_owned(), line))
            },
        }
    }

    /// The session's selected path and its cached value, each empty when
    /// nothing is selected or cached.
    fn selected_value(&self) -> (r: (String, String))
        ensures
            r.0@ == selected_of(self.spec_metadata()),
            r.1@ == value_or_empty(self.spec_values(), selected_of(self.spec_metadata())),
    {
        proof {
            reveal_strlit("selected");
            assert("selected"@ =~= selected_key());
        }
        let selected = match self.metadata.get("selected") {
            Some(s) => s,
            None => String::new(),
        };
        let val = match self.values.get(selected.as_str()) {
            Some(v) => v,
            None => String::new(),
        };
        (selected, val)
    }

    /// Candidate strings for partial input. An input that opens like a
    /// stateful verb gets a single reconstruction candidate from the
    /// session's selected path; anything else is treated as a partial path
    /// and completed from the index. Reads only; never mutates.
    pub fn get_completions(&self, input: &str) -> (r: Vec<String>)
        ensures
            r.deep_view() == completions_model(
                self.spec_index(),
                self.spec_values(),
                self.spec_metadata(),
                input@,
            ),
    {
        let lowered = to_lowercase(input);
        proof {
            reveal_strlit("set");
            reveal_strlit("insert");
            assert("set"@ =~= seq!['s', 'e', 't']);
            assert("insert"@ =~= seq!['i', 'n', 's', 'e', 'r', 't']);
        }
        if str_starts_with(lowered.as_str(), "set") {
            let sel = self.selected_value();
            let mut out = String::from_str("set ");
            out.append(sel.1.as_str());
            proof {
                reveal_strlit("set ");
                assert(out@ =~= set_candidate(
                    value_or_empty(self.spec_values(), selected_of(self.spec_metadata())),
                ));
            }
            let mut v: Vec<String> = Vec::new();
            v.push(out);
            proof {
                assert(v.deep_view() =~~= completions_model(
                    self.spec_index(),
                    self.spec_values(),
                    self.spec_metadata(),
                    input@,
                ));
            }
            v
        } else if str_starts_with(lowered.as_str(), "insert") {
            let sel = self.selected_value();
            let mut out = String::from_str("insert ");
            out.append(sel.0.as_str());
            string_push(&mut out, ':');
            out.append(sel.1.as_str());
            string_push(&mut out, ':');
            out.append("String");
            proof {
                reveal_strlit("insert ");
                reveal_strlit("String");
                assert(out@ =~= insert_candidate(
                    selected_of(self.spec_metadata()),
                    value_or_empty(self.spec_values(), selected_of(self.spec_metadata())),
                ));
            }
            let mut v: Vec<String> = Vec::new();
            v.push(out);
            proof {
                assert(v.deep_view() =~~= completions_model(
                    self.spec_index(),
                    self.spec_values(),
                    self.spec_metadata(),
                    input@,
                ));
            }
            v
        } else {
            let looked_up = crate::completion::lookup_path(input);
            let prefix = crate::completion::input_prefix(input);
            let lowered_prefix = to_lowercase(prefix.as_str());
            let children = self.index.children(looked_up.as_str());
            let ghost cs = children.deep_view();
            let ghost lu = lookup_path_of(input@);
            let ghost pre = prefix_of_input(input@);
            let n = children.len();
            let mut out: Vec<String> = Vec::new();
            proof {
                assert(cs.skip(0) == cs);
                assert(out.deep_view() =~~= Seq::<Seq<char>>::empty());
                assert(out.deep_view() + filtered_requalified(cs, lu, pre) =~~=
                    filtered_requalified(cs, lu, pre));
            }
            let mut i: usize = 0;
            while i < n
                invariant
                    0 <= i <= n,
                    n == children@.len(),
                    cs == children.deep_view(),
                    looked_up@ == lu,
                    lowered_prefix@ == lower_of(pre),
                    filtered_requalified(cs, lu, pre) == out.deep_view() + filtered_requalified(
                        cs.skip(i as int),
                        lu,
                        pre,
                    ),
                decreases n - i,
            {
                let ghost out_before = out.deep_view();
                proof {
                    assert(cs.skip(i as int)[0] == cs[i as int]);
                    assert(cs.skip(i as int).drop_first() =~= cs.skip(i as int + 1));
                    assert(children@[i as int]@ == cs[i as int]);
                }
                let lowered_child = to_lowercase(children[i].as_str());
                if str_starts_with(lowered_child.as_str(), lowered_prefix.as_str()) {
                    let candidate = crate::completion::requalify(
                        looked_up.as_str(),
                        children[i].as_str(),
                    );
                    out.push(candidate);
                    proof {
                        assert(out.deep_view() =~~= out_before.push(out@[out@.len() - 1]@));
                        assert(out.deep_view() + filtered_requalified(cs.skip(i as int + 1), lu, pre)
                            =~~= out_before + filtered_requalified(cs.skip(i as int), lu, pre));
                    }
                }
                i += 1;
            }
            proof {
                assert(cs.skip(n as int) =~= Seq::<Seq<char>>::empty());
                assert(out.deep_view() + filtered_requalified(cs.skip(n as int), lu, pre) =~~=
                    out.deep_view());
                assert(out.deep_view() =~~= completions_model(
                    self.spec_index(),
                    self.spec_values(),
                    self.spec_metadata(),
                    input@,
                ));
            }
            out
        }
    }

    /// Path candidates first, then the command keywords whose lowercase form
    /// starts with the lowercase input.
    pub fn complete(&self, input: &str) -> (r: Vec<String>)
        ensures
            r.deep_view() == completions_model(
                self.spec_index(),
                self.spec_values(),
                self.spec_metadata(),
                input@,
            ) + command_matches(self.spec_commands(), input@),
    {
        let ghost model = completions_model(
            self.spec_index(),
            self.spec_values(),
            self.spec_metadata(),
            input@,
        );
        let ghost cmds = self.commands.deep_view();
        let mut out = self.get_completions(input);
        let lowered_input = to_lowercase(input);
        let n = self.commands.len();
        proof {
            assert(cmds.skip(0) == cmds);
        }
        let mut i: usize = 0;
        while i < n
            invariant
                0 <= i <= n,
                n == self.commands@.len(),
                cmds == self.commands.deep_view(),
                lowered_input@ == lower_of(input@),
                model + command_matches(cmds, input@) == out.deep_view() + command_matches(
                    cmds.skip(i as int),
                    input@,
                ),
            decreases n - i,
        {
            let ghost out_before = out.deep_view();
            proof {
                assert(cmds.skip(i as int)[0] == cmds[i as int]);
                assert(cmds.skip(i as int).drop_first() =~= cmds.skip(i as int + 1));
                assert(self.commands@[i as int]@ == cmds[i as int]);
            }
            let lowered_cmd = to_lowercase(self.commands[i].as_str());
            if str_starts_with(lowered_cmd.as_str(), lowered_input.as_str()) {
                out.push(self.commands[i].clone());
                proof {
                    assert(out.deep_view() =~~= out_before.push(out@[out@.len() - 1]@));
                    assert(out.deep_view() + command_matches(cmds.skip(i as int + 1), input@) =~~=
                        out_before + command_matches(cmds.skip(i as int), input@));
                }
            }
            i += 1;
        }
        proof {
            assert(cmds.skip(n as int) =~= Seq::<Seq<char>>::empty());
            assert(out.deep_view() + command_matches(cmds.skip(n as int), input@) =~~=
                out.deep_view());
        }
        out
    }

    /// One-shot maintenance: re-encode every record of a values file's text,
    /// taking each stored value as it stands, and return the file's new
    /// text. Not idempotent: running it twice over an already-encoded file
    /// double-encodes every value, and a single decode will no longer
    /// recover the plain text. A stored value too long to encode stops the
    /// migration.
    pub fn migrate_encryption(&self, content: &str) -> (r: Option<String>)
        ensures
            r is Some <==> (forall|i: int|
                0 <= i < records_of(content@).len() ==> #[trigger] records_of(
                    content@,
                )[i].1.len() <= MAX_VALUE_LEN),
            r matches Some(out) ==> exists|encs: Seq<Seq<char>>|
                all_encrypted(self.spec_enabled(), self.spec_key(), records_of(content@), encs)
                    && out@ == serialized_records(rekeyed(records_of(content@), encs)),
    {
        let records = crate::record_store::parse_records(content);
        let ghost recs = records.deep_view();
        let n = records.len();
        let mut out = String::new();
        let ghost mut encs: Seq<Seq<char>> = Seq::empty();
        let mut i: usize = 0;
        proof {
            assert(rekeyed(recs.take(0), encs) =~= Seq::<(Seq<char>, Seq<char>)>::empty());
        }
        while i < n
            invariant
                0 <= i <= n,
                n == records@.len(),
                recs == records.deep_view(),
                recs == records_of(content@),
                encs.len() == i,
                forall|j: int|
                    0 <= j < i ==> encrypted_rel(
                        self.spec_enabled(),
                        self.spec_key(),
                        recs[j].1,
                        #[trigger] encs[j],
                    ),
                forall|j: int| 0 <= j < i ==> recs[j].1.len() <= MAX_VALUE_LEN,
                out@ == serialized_records(rekeyed(recs.take(i as int), encs)),
            decreases n - i,
        {
            proof {
                assert((records@[i as int].0@, records@[i as int].1@) == recs[i as int]);
            }
            let value = &records[i].1;
            if value.as_str().unicode_len() > MAX_VALUE_LEN {
                proof {
                    assert(records_of(content@)[i as int].1.len() > MAX_VALUE_LEN);
                }
                return None;
            }
            let encoded = encrypt_value(&self.encryptor, value.as_str());
            let ghost e = encoded@;
            let line = make_record_line(records[i].0.as_str(), encoded.as_str());
            out.append(line.as_str());
            string_push(&mut out, '\n');
            proof {
                lemma_serialized_records_push(
                    rekeyed(recs.take(i as int), encs),
                    (recs[i as int].0, e),
                );
                assert(rekeyed(recs.take(i as int), encs).push((recs[i as int].0, e)) =~= rekeyed(
                    recs.take(i as int + 1),
                    encs.push(e),
                ));
                encs = encs.push(e);
                assert(out@ =~= serialized_records(rekeyed(recs.take(i as int + 1), encs)));
            }
            i += 1;
        }
        proof {
            assert(recs.take(n as int) =~= recs);
            assert(all_encrypted(self.spec_enabled(), self.spec_key(), records_of(content@), encs)
                && out@ == serialized_records(rekeyed(records_of(content@), encs)));
            assert forall|i: int|
                0 <= i < records_of(content@).len() implies #[trigger] records_of(
                content@,
            )[i].1.len() <= MAX_VALUE_LEN by {}
        }
        Some(out)
    }
}

} // verus!
