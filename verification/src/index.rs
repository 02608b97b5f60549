//! The code index aggregate: symbol table, declaration store and edge store,
//! with its mathematical model and well-formedness invariant.

use vstd::prelude::*;
use vstd::string::StringExecFns;
use crate::decls::Class;
use crate::decls::ClassRecord;
use crate::decls::Function;
use crate::decls::FunRecord;
use crate::decls::fun_key;
use crate::interner::IDGenerator;
use crate::interner::distinct_names;
use crate::interner::intern_id;
use crate::interner::intern_names;
use crate::interner::lemma_intern_distinct;
use crate::text::contains_sub;
use crate::text::contains_substr;
use crate::text::lex_lt;
use crate::text::lemma_lex_lt_total;
use crate::text::lemma_lex_lt_trans;
use crate::text::str_eq;
use crate::text::str_lt;

verus! {

/// One adjacency row: a caller id and its outgoing call edges, one entry per
/// call site, duplicates retained.
pub struct EdgeList {
    pub caller: u64,
    pub callees: Vec<u64>,
}

/// The mathematical state of a code index.
#[verifier::ext_equal]
pub ghost struct IndexModel {
    pub names: Seq<Seq<char>>,
    pub edges: Seq<(u64, Seq<u64>)>,
    pub functions: Seq<FunRecord>,
    pub classes: Seq<ClassRecord>,
    pub skip_dirs: Seq<Seq<char>>,
}

/// The position of the adjacency row for `id`, if one exists.
pub open spec fn edge_index(edges: Seq<(u64, Seq<u64>)>, id: u64) -> Option<int>
    decreases edges.len(),
{
    if edges.len() == 0 {
        None
    } else if edges[0].0 == id {
        Some(0int)
    } else {
        match edge_index(edges.drop_first(), id) {
            Some(i) => Some(i + 1),
            None => None,
        }
    }
}

/// The recorded out-edges of `id`, the empty sequence when none were recorded.
pub open spec fn out_edges(edges: Seq<(u64, Seq<u64>)>, id: u64) -> Seq<u64> {
    match edge_index(edges, id) {
        Some(i) => edges[i].1,
        None => Seq::empty(),
    }
}

/// `edge_index` returns the first matching row, or `None` when no row matches.
pub proof fn lemma_edge_index_first(edges: Seq<(u64, Seq<u64>)>, id: u64)
    ensures
        match edge_index(edges, id) {
            Some(i) => 0 <= i < edges.len() && edges[i].0 == id && (forall|j: int|
                0 <= j < i ==> edges[j].0 != id),
            None => forall|j: int| 0 <= j < edges.len() ==> edges[j].0 != id,
        },
    decreases edges.len(),
{
    if edges.len() > 0 && edges[0].0 != id {
        let rest = edges.drop_first();
        lemma_edge_index_first(rest, id);
        match edge_index(rest, id) {
            Some(i) => {
                assert forall|j: int| 0 <= j < i + 1 implies edges[j].0 != id by {
                    if j > 0 {
                        assert(edges[j] == rest[j - 1]);
                    }
                }
            },
            None => {
                assert forall|j: int| 0 <= j < edges.len() implies edges[j].0 != id by {
                    if j > 0 {
                        assert(edges[j] == rest[j - 1]);
                    }
                }
            },
        }
    }
}

/// `edge_index` finds a row exactly where the pointwise facts put it.
pub proof fn lemma_edge_index_at(edges: Seq<(u64, Seq<u64>)>, id: u64, i: int)
    requires
        0 <= i < edges.len(),
        edges[i].0 == id,
        forall|j: int| 0 <= j < i ==> edges[j].0 != id,
    ensures
        edge_index(edges, id) == Some(i),
    decreases edges.len(),
{
    if i > 0 {
        lemma_edge_index_at(edges.drop_first(), id, i - 1);
    }
}

/// `edge_index` reports absence exactly when no row matches.
pub proof fn lemma_edge_index_absent(edges: Seq<(u64, Seq<u64>)>, id: u64)
    requires
        forall|j: int| 0 <= j < edges.len() ==> edges[j].0 != id,
    ensures
        edge_index(edges, id) is None,
    decreases edges.len(),
{
    if edges.len() > 0 {
        lemma_edge_index_absent(edges.drop_first(), id);
    }
}

/// The position of the function record stored under `key`, if any.
pub open spec fn fun_index(fs: Seq<FunRecord>, key: Seq<char>) -> Option<int>
    decreases fs.len(),
{
    if fs.len() == 0 {
        None
    } else if fun_key(fs[0]) == key {
        Some(0int)
    } else {
        match fun_index(fs.drop_first(), key) {
            Some(i) => Some(i + 1),
            None => None,
        }
    }
}

/// `fun_index` returns the first matching record, or `None`.
pub proof fn lemma_fun_index_first(fs: Seq<FunRecord>, key: Seq<char>)
    ensures
        match fun_index(fs, key) {
            Some(i) => 0 <= i < fs.len() && fun_key(fs[i]) == key && (forall|j: int|
                0 <= j < i ==> fun_key(fs[j]) != key),
            None => forall|j: int| 0 <= j < fs.len() ==> fun_key(fs[j]) != key,
        },
    decreases fs.len(),
{
    if fs.len() > 0 && fun_key(fs[0]) != key {
        let rest = fs.drop_first();
        lemma_fun_index_first(rest, key);
        match fun_index(rest, key) {
            Some(i) => {
                assert forall|j: int| 0 <= j < i + 1 implies fun_key(fs[j]) != key by {
                    if j > 0 {
                        assert(fs[j] == rest[j - 1]);
                    }
                }
            },
            None => {
                assert forall|j: int| 0 <= j < fs.len() implies fun_key(fs[j]) != key by {
                    if j > 0 {
                        assert(fs[j] == rest[j - 1]);
                    }
                }
            },
        }
    }
}

/// `fun_index` finds a record exactly where the pointwise facts put it.
pub proof fn lemma_fun_index_at(fs: Seq<FunRecord>, key: Seq<char>, i: int)
    requires
        0 <= i < fs.len(),
        fun_key(fs[i]) == key,
        forall|j: int| 0 <= j < i ==> fun_key(fs[j]) != key,
    ensures
        fun_index(fs, key) == Some(i),
    decreases fs.len(),
{
    if i > 0 {
        lemma_fun_index_at(fs.drop_first(), key, i - 1);
    }
}

/// `fun_index` reports absence exactly when no record matches.
pub proof fn lemma_fun_index_absent(fs: Seq<FunRecord>, key: Seq<char>)
    requires
        forall|j: int| 0 <= j < fs.len() ==> fun_key(fs[j]) != key,
    ensures
        fun_index(fs, key) is None,
    decreases fs.len(),
{
    if fs.len() > 0 {
        lemma_fun_index_absent(fs.drop_first(), key);
    }
}

/// The position of the class record stored under `name`, if any.
pub open spec fn class_index(cs: Seq<ClassRecord>, name: Seq<char>) -> Option<int>
    decreases cs.len(),
{
    if cs.len() == 0 {
        None
    } else if cs[0].name == name {
        Some(0int)
    } else {
        match class_index(cs.drop_first(), name) {
            Some(i) => Some(i + 1),
            None => None,
        }
    }
}

/// `class_index` returns the first matching record, or `None`.
pub proof fn lemma_class_index_first(cs: Seq<ClassRecord>, name: Seq<char>)
    ensures
        match class_index(cs, name) {
            Some(i) => 0 <= i < cs.len() && cs[i].name == name && (forall|j: int|
                0 <= j < i ==> cs[j].name != name),
            None => forall|j: int| 0 <= j < cs.len() ==> cs[j].name != name,
        },
    decreases cs.len(),
{
    if cs.len() > 0 && cs[0].name != name {
        let rest = cs.drop_first();
        lemma_class_index_first(rest, name);
        match class_index(rest, name) {
            Some(i) => {
                assert forall|j: int| 0 <= j < i + 1 implies cs[j].name != name by {
                    if j > 0 {
                        assert(cs[j] == rest[j - 1]);
                    }
                }
            },
            None => {
                assert forall|j: int| 0 <= j < cs.len() implies cs[j].name != name by {
                    if j > 0 {
                        assert(cs[j] == rest[j - 1]);
                    }
                }
            },
        }
    }
}

/// `class_index` finds a record exactly where the pointwise facts put it.
pub proof fn lemma_class_index_at(cs: Seq<ClassRecord>, name: Seq<char>, i: int)
    requires
        0 <= i < cs.len(),
        cs[i].name == name,
        forall|j: int| 0 <= j < i ==> cs[j].name != name,
    ensures
        class_index(cs, name) == Some(i),
    decreases cs.len(),
{
    if i > 0 {
        lemma_class_index_at(cs.drop_first(), name, i - 1);
    }
}

/// `class_index` reports absence exactly when no record matches.
pub proof fn lemma_class_index_absent(cs: Seq<ClassRecord>, name: Seq<char>)
    requires
        forall|j: int| 0 <= j < cs.len() ==> cs[j].name != name,
    ensures
        class_index(cs, name) is None,
    decreases cs.len(),
{
    if cs.len() > 0 {
        lemma_class_index_absent(cs.drop_first(), name);
    }
}

/// Function records stand in strictly increasing key order.
pub open spec fn funs_sorted(fs: Seq<FunRecord>) -> bool {
    forall|i: int| 0 <= i < fs.len() - 1 ==> lex_lt(fun_key(#[trigger] fs[i]), fun_key(fs[i + 1]))
}

/// Adjacent ordering extends to any two positions.
pub proof fn lemma_funs_sorted_pairwise(fs: Seq<FunRecord>, i: int, j: int)
    requires
        funs_sorted(fs),
        0 <= i < j < fs.len(),
    ensures
        lex_lt(fun_key(fs[i]), fun_key(fs[j])),
    decreases j - i,
{
    if j > i + 1 {
        lemma_funs_sorted_pairwise(fs, i, j - 1);
        lemma_lex_lt_trans(fun_key(fs[i]), fun_key(fs[j - 1]), fun_key(fs[j]));
    }
}

/// Class records carry pairwise distinct names.
pub open spec fn classes_distinct(cs: Seq<ClassRecord>) -> bool {
    forall|i: int, j: int| 0 <= i < j < cs.len() ==> cs[i].name != cs[j].name
}

/// Adjacency rows have pairwise distinct callers, and every id they mention is
/// interned.
pub open spec fn edges_wf(edges: Seq<(u64, Seq<u64>)>, n_names: int) -> bool {
    &&& forall|i: int, j: int| 0 <= i < j < edges.len() ==> edges[i].0 != edges[j].0
    &&& forall|i: int|
        0 <= i < edges.len() ==> 1 <= (#[trigger] edges[i]).0 <= n_names && (forall|k: int|
            0 <= k < edges[i].1.len() ==> 1 <= #[trigger] edges[i].1[k] <= n_names)
}

/// The invariant every reachable index state satisfies: symbol names are
/// distinct, function records are sorted by key (hence keyed uniquely), class
/// names are distinct, and every id in the edge store is interned.
pub open spec fn index_wf(m: IndexModel) -> bool {
    &&& distinct_names(m.names)
    &&& funs_sorted(m.functions)
    &&& classes_distinct(m.classes)
    &&& edges_wf(m.edges, m.names.len() as int)
}

/// The whole aggregate: symbol table, declaration store, edge store, and the
/// path fragments directory extraction skips.
pub struct CodeIndex {
    pub edges: Vec<EdgeList>,
    pub functions: Vec<Function>,
    pub classes: Vec<Class>,
    pub skip_dirs: Vec<String>,
    pub id_gen: IDGenerator,
}

impl View for CodeIndex {
    type V = IndexModel;

    open spec fn view(&self) -> IndexModel {
        IndexModel {
            names: self.id_gen@,
            edges: self.edges@.map_values(|e: EdgeList| (e.caller, e.callees@)),
            functions: self.functions@.map_values(|f: Function| f@),
            classes: self.classes@.map_values(|c: Class| c@),
            skip_dirs: self.skip_dirs@.map_values(|s: String| s@),
        }
    }
}

/// The position a new record with `key` is inserted at: the length of the
/// front run of stored keys strictly below `key`.
pub open spec fn insert_pos(fs: Seq<FunRecord>, key: Seq<char>) -> int
    decreases fs.len(),
{
    if fs.len() == 0 {
        0
    } else if lex_lt(fun_key(fs[0]), key) {
        1 + insert_pos(fs.drop_first(), key)
    } else {
        0
    }
}

/// `insert_pos` lands exactly where the front run of smaller keys ends.
pub proof fn lemma_insert_pos_at(fs: Seq<FunRecord>, key: Seq<char>, i: int)
    requires
        0 <= i <= fs.len(),
        forall|j: int| 0 <= j < i ==> lex_lt(fun_key(#[trigger] fs[j]), key),
        i < fs.len() ==> !lex_lt(fun_key(fs[i]), key),
    ensures
        insert_pos(fs, key) == i,
    decreases fs.len(),
{
    if i > 0 {
        let rest = fs.drop_first();
        assert(forall|j: int| 0 <= j < rest.len() ==> rest[j] == fs[j + 1]);
        lemma_insert_pos_at(rest, key, i - 1);
    }
}

/// The model after recording a function declaration: inserted at its sorted
/// position once, a later record under an already-present key is discarded.
pub open spec fn record_function(m: IndexModel, f: FunRecord) -> IndexModel {
    if fun_index(m.functions, fun_key(f)) is Some {
        m
    } else {
        IndexModel {
            functions: m.functions.insert(insert_pos(m.functions, fun_key(f)), f),
            ..m
        }
    }
}

/// The model after recording a class: inserted once, a later record under an
/// already-present name is discarded.
pub open spec fn record_class(m: IndexModel, c: ClassRecord) -> IndexModel {
    if class_index(m.classes, c.name) is Some {
        m
    } else {
        IndexModel { classes: m.classes.push(c), ..m }
    }
}

/// The model after adding one call edge: both names are interned, and the
/// callee id is appended to the caller's adjacency row (created when absent).
pub open spec fn record_edge(m: IndexModel, from: Seq<char>, to: Seq<char>) -> IndexModel {
    let names1 = intern_names(m.names, from);
    let fid = intern_id(m.names, from) as u64;
    let names2 = intern_names(names1, to);
    let tid = intern_id(names1, to) as u64;
    let edges = match edge_index(m.edges, fid) {
        Some(i) => m.edges.update(i, (fid, m.edges[i].1.push(tid))),
        None => m.edges.push((fid, seq![tid])),
    };
    IndexModel { names: names2, edges: edges, ..m }
}

impl CodeIndex {
    /// The aggregate's invariant; every public operation preserves it.
    pub open spec fn wf(&self) -> bool {
        index_wf(self@)
    }

    /// An empty index. Directory extraction starts out skipping paths that
    /// contain `node_modules` or `.pnpm`.
    pub fn new() -> (r: CodeIndex)
        ensures
            r@.names == Seq::<Seq<char>>::empty(),
            r@.edges == Seq::<(u64, Seq<u64>)>::empty(),
            r@.functions == Seq::<FunRecord>::empty(),
            r@.classes == Seq::<ClassRecord>::empty(),
            r@.skip_dirs == seq!["node_modules"@, ".pnpm"@],
            r.wf(),
    {
        let mut skip_dirs: Vec<String> = Vec::new();
        skip_dirs.push(String::from_str("node_modules"));
        skip_dirs.push(String::from_str(".pnpm"));
        let r = CodeIndex {
            edges: Vec::new(),
            functions: Vec::new(),
            classes: Vec::new(),
            skip_dirs,
            id_gen: IDGenerator::new(),
        };
        proof {
            assert(r@.edges =~= Seq::<(u64, Seq<u64>)>::empty());
            assert(r@.functions =~= Seq::<FunRecord>::empty());
            assert(r@.classes =~= Seq::<ClassRecord>::empty());
            assert(r@.skip_dirs =~= seq!["node_modules"@, ".pnpm"@]);
        }
        r
    }

    /// Interns a qualified name or callee text, changing nothing else;
    /// extraction interns every name it encounters, and queries intern the
    /// root name they are asked about.
    pub fn intern(&mut self, name: &String) -> (id: u64)
        ensures
            final(self)@ == (IndexModel {
                names: intern_names(old(self)@.names, name@),
                ..old(self)@
            }),
            id as int == intern_id(old(self)@.names, name@),
            old(self).wf() ==> final(self).wf(),
    {
        let ghost m0 = self@;
        let id = self.id_gen.id(name);
        proof {
            assert(self@ =~= (IndexModel { names: intern_names(m0.names, name@), ..m0 }));
            if old(self).wf() {
                lemma_intern_distinct(m0.names, name@);
                assert(self@.names.len() >= m0.names.len());
                assert(index_wf(self@));
            }
        }
        id
    }

    /// The recorded header text of class `name`.
    #[verifier::loop_isolation(false)]
    pub fn class_header(&self, name: &String) -> (r: Option<&String>)
        ensures
            match r {
                Some(s) => class_index(self@.classes, name@) matches Some(i) && s@
                    == self@.classes[i].declaration,
                None => class_index(self@.classes, name@) is None,
            },
    {
        let ghost cs = self@.classes;
        proof {
            assert(cs.len() == self.classes@.len());
        }
        let n = self.classes.len();
        let mut i: usize = 0;
        while i < n
            invariant
                i <= n,
                forall|j: int| 0 <= j < i ==> (#[trigger] cs[j]).name != name@,
            decreases n - i,
        {
            proof {
                assert(cs[i as int] == self.classes@[i as int]@);
            }
            if str_eq(self.classes[i].name.as_str(), name.as_str()) {
                proof {
                    lemma_class_index_at(cs, name@, i as int);
                }
                return Some(&self.classes[i].declaration);
            }
            i += 1;
        }
        proof {
            lemma_class_index_absent(cs, name@);
        }
        None
    }

    /// The recorded body of the function stored under the qualified name.
    #[verifier::loop_isolation(false)]
    pub fn function_body(&self, qualified: &String) -> (r: Option<&String>)
        ensures
            match r {
                Some(s) => fun_index(self@.functions, qualified@) matches Some(i) && s@
                    == self@.functions[i].body,
                None => fun_index(self@.functions, qualified@) is None,
            },
    {
        let ghost fs = self@.functions;
        proof {
            assert(fs.len() == self.functions@.len());
        }
        let n = self.functions.len();
        let mut i: usize = 0;
        while i < n
            invariant
                i <= n,
                forall|j: int| 0 <= j < i ==> fun_key(#[trigger] fs[j]) != qualified@,
            decreases n - i,
        {
            proof {
                assert(fs[i as int] == self.functions@[i as int]@);
            }
            let ki = self.functions[i].str();
            if str_eq(ki.as_str(), qualified.as_str()) {
                proof {
                    lemma_fun_index_at(fs, qualified@, i as int);
                }
                return Some(&self.functions[i].body);
            }
            i += 1;
        }
        proof {
            lemma_fun_index_absent(fs, qualified@);
        }
        None
    }

    /// Replaces the caller-supplied set of path fragments that directory-wide
    /// extraction skips.
    pub fn set_skip_dirs(&mut self, dirs: Vec<String>)
        ensures
            final(self)@.skip_dirs.len() == dirs@.len(),
            forall|i: int|
                0 <= i < dirs@.len() ==> final(self)@.skip_dirs[i] == (#[trigger] dirs@[i])@,
            final(self)@.names == old(self)@.names,
            final(self)@.edges == old(self)@.edges,
            final(self)@.functions == old(self)@.functions,
            final(self)@.classes == old(self)@.classes,
            old(self).wf() ==> final(self).wf(),
    {
        self.skip_dirs = dirs;
    }

    /// Whether directory-wide extraction skips `path`: true exactly when one
    /// of the recorded path fragments occurs in it.
    #[verifier::loop_isolation(false)]
    pub fn should_skip(&self, path: &String) -> (r: bool)
        ensures
            r == exists|i: int|
                0 <= i < self@.skip_dirs.len() && contains_sub(
                    path@,
                    #[trigger] self@.skip_dirs[i],
                ),
    {
        let n = self.skip_dirs.len();
        let mut i: usize = 0;
        while i < n
            invariant
                i <= n,
                forall|j: int| 0 <= j < i ==> !contains_sub(path@, #[trigger] self@.skip_dirs[j]),
            decreases n - i,
        {
            proof {
                assert(self@.skip_dirs[i as int] == self.skip_dirs@[i as int]@);
            }
            if contains_substr(path.as_str(), self.skip_dirs[i].as_str()) {
                return true;
            }
            i += 1;
        }
        false
    }

    /// Records a function declaration under its qualified name, keeping the
    /// store sorted by key; a key seen before keeps its first record.
    #[verifier::loop_isolation(false)]
    pub fn add_function(&mut self, func: &Function)
        ensures
            final(self)@ == record_function(old(self)@, func@),
            old(self).wf() ==> final(self).wf(),
    {
        let key = func.str();
        let ghost fs0 = self@.functions;
        proof {
            assert(fs0.len() == self.functions@.len());
        }
        let n = self.functions.len();
        let mut i: usize = 0;
        while i < n
            invariant
                i <= n,
                forall|j: int| 0 <= j < i ==> fun_key(#[trigger] fs0[j]) != key@,
            decreases n - i,
        {
            proof {
                assert(fs0[i as int] == self.functions@[i as int]@);
            }
            let ki = self.functions[i].str();
            if str_eq(ki.as_str(), key.as_str()) {
                proof {
                    lemma_fun_index_at(fs0, key@, i as int);
                }
                return ;
            }
            i += 1;
        }
        proof {
            lemma_fun_index_absent(fs0, key@);
        }
        let mut pos: usize = 0;
        #[verifier::loop_isolation(true)]
        while pos < n
            invariant
                pos <= n,
                fs0 == self@.functions,
                n == self.functions@.len(),
                fs0.len() == n,
                key@ == fun_key(func@),
                forall|j: int| 0 <= j < pos ==> lex_lt(fun_key(#[trigger] fs0[j]), key@),
            ensures
                pos <= n,
                forall|j: int| 0 <= j < pos ==> lex_lt(fun_key(#[trigger] fs0[j]), key@),
                pos < n ==> !lex_lt(fun_key(fs0[pos as int]), key@),
            decreases n - pos,
        {
            proof {
                assert(fs0[pos as int] == self.functions@[pos as int]@);
            }
            let kp = self.functions[pos].str();
            if !str_lt(kp.as_str(), key.as_str()) {
                break ;
            }
            pos += 1;
        }
        proof {
            lemma_insert_pos_at(fs0, key@, pos as int);
        }
        let copy = Function {
            name: func.name.clone(),
            pkg: func.pkg.clone(),
            body: func.body.clone(),
        };
        self.functions.insert(pos, copy);
        proof {
            assert(self@.functions =~= fs0.insert(pos as int, func@));
            assert(self@ =~= record_function(old(self)@, func@));
            if old(self).wf() {
                let fs1 = self@.functions;
                assert forall|x: int| 0 <= x < fs1.len() - 1 implies lex_lt(
                    fun_key(#[trigger] fs1[x]),
                    fun_key(fs1[x + 1]),
                ) by {
                    if x + 1 < pos as int {
                        assert(fs1[x] == fs0[x]);
                        assert(fs1[x + 1] == fs0[x + 1]);
                    } else if x + 1 == pos as int {
                        assert(fs1[x] == fs0[x]);
                        assert(fs1[x + 1] == func@);
                    } else if x == pos as int {
                        assert(fs1[x] == func@);
                        assert(fs1[x + 1] == fs0[x]);
                        if lex_lt(key@, fun_key(fs0[x])) {
                        } else {
                            assert(fun_key(fs0[x]) != key@);
                            lemma_lex_lt_total(fun_key(fs0[x]), key@);
                            assert(lex_lt(fun_key(fs0[x]), key@));
                            assert(false);
                        }
                    } else {
                        assert(fs1[x] == fs0[x - 1]);
                        assert(fs1[x + 1] == fs0[x]);
                    }
                }
                assert(index_wf(self@));
            }
        }
    }

    /// All recorded qualified function names, lexicographically sorted.
    #[verifier::loop_isolation(false)]
    pub fn function_list(&self) -> (r: Vec<String>)
        ensures
            r@.len() == self@.functions.len(),
            forall|i: int| 0 <= i < r@.len() ==> (#[trigger] r@[i])@ == fun_key(
                self@.functions[i],
            ),
            self.wf() ==> forall|i: int, j: int|
                0 <= i < j < r@.len() ==> lex_lt((#[trigger] r@[i])@, (#[trigger] r@[j])@),
    {
        let mut result: Vec<String> = Vec::new();
        let mut i: usize = 0;
        let n = self.functions.len();
        while i < n
            invariant
                i <= n,
                result@.len() == i,
                forall|j: int| 0 <= j < i ==> (#[trigger] result@[j])@ == fun_key(
                    self@.functions[j],
                ),
            decreases n - i,
        {
            proof {
                assert(self@.functions[i as int] == self.functions@[i as int]@);
            }
            result.push(self.functions[i].str());
            i += 1;
        }
        proof {
            if self.wf() {
                assert forall|x: int, y: int| 0 <= x < y < result@.len() implies lex_lt(
                    (#[trigger] result@[x])@,
                    (#[trigger] result@[y])@,
                ) by {
                    lemma_funs_sorted_pairwise(self@.functions, x, y);
                }
            }
        }
        result
    }

    /// Records a class declaration; a name seen before keeps its first record.
    pub fn add_class(&mut self, cls: &Class)
        ensures
            final(self)@ == record_class(old(self)@, cls@),
            old(self).wf() ==> final(self).wf(),
    {
        let ghost cs0 = self@.classes;
        proof {
            assert(cs0.len() == self.classes@.len());
        }
        let n = self.classes.len();
        let mut i: usize = 0;
        while i < n
            invariant
                i <= n,
                n == self.classes@.len(),
                cs0.len() == n,
                self@.classes == cs0,
                forall|j: int| 0 <= j < i ==> cs0[j].name != cls@.name,
            decreases n - i,
        {
            proof {
                assert(cs0[i as int] == self.classes@[i as int]@);
            }
            if str_eq(self.classes[i].name.as_str(), cls.name.as_str()) {
                proof {
                    lemma_class_index_at(cs0, cls@.name, i as int);
                }
                return ;
            }
            i += 1;
        }
        proof {
            lemma_class_index_absent(cs0, cls@.name);
        }
        let copy = Class { name: cls.name.clone(), declaration: cls.declaration.clone() };
        self.classes.push(copy);
        proof {
            assert(self@.classes =~= cs0.push(cls@));
            assert(self@ =~= record_class(old(self)@, cls@));
            if old(self).wf() {
                let cs1 = self@.classes;
                assert forall|x: int, y: int| 0 <= x < y < cs1.len() implies cs1[x].name
                    != cs1[y].name by {
                    assert(cs1[x] == cs0[x]);
                    if y < cs0.len() {
                        assert(cs1[y] == cs0[y]);
                    }
                }
                assert(index_wf(self@));
            }
        }
    }

    /// Records one call edge from `from` to `to`, interning both names;
    /// parallel edges accumulate, one entry per call site.
    #[verifier::loop_isolation(false)]
    pub fn add_edge(&mut self, from: &String, to: &String)
        ensures
            final(self)@ == record_edge(old(self)@, from@, to@),
            old(self).wf() ==> final(self).wf(),
    {
        let ghost m0 = self@;
        let from_id = self.id_gen.id(from);
        let to_id = self.id_gen.id(to);
        let ghost m1 = self@;
        let ghost es0 = self@.edges;
        proof {
            assert(es0 == m0.edges);
            assert(m1.names.len() >= m0.names.len());
            if old(self).wf() {
                lemma_intern_distinct(m0.names, from@);
                lemma_intern_distinct(intern_names(m0.names, from@), to@);
            }
        }
        proof {
            assert(es0.len() == self.edges@.len());
        }
        let n = self.edges.len();
        let mut i: usize = 0;
        while i < n
            invariant
                i <= n,
                n == self.edges@.len(),
                es0.len() == n,
                self@ == m1,
                forall|j: int| 0 <= j < i ==> es0[j].0 != from_id,
            decreases n - i,
        {
            proof {
                assert(es0[i as int] == (self.edges@[i as int].caller,
                    self.edges@[i as int].callees@));
            }
            if self.edges[i].caller == from_id {
                proof {
                    lemma_edge_index_at(es0, from_id, i as int);
                }
                let mut row = self.edges.remove(i);
                row.callees.push(to_id);
                self.edges.insert(i, row);
                proof {
                    assert(self@.edges =~= es0.update(
                        i as int,
                        (from_id, es0[i as int].1.push(to_id)),
                    ));
                    assert(self@ =~= record_edge(old(self)@, from@, to@));
                    if old(self).wf() {
                        let es1 = self@.edges;
                        assert forall|k: int| 0 <= k < es1.len() implies es1[k].0 == es0[k].0 by {}
                        assert forall|k: int| 0 <= k < es1.len() implies 1 <= (
                        #[trigger] es1[k]).0 <= m1.names.len() && (forall|t: int|
                            0 <= t < es1[k].1.len() ==> 1 <= #[trigger] es1[k].1[t]
                                <= m1.names.len()) by {
                            if k == i as int {
                                assert(es1[k].1 == es0[k].1.push(to_id));
                                assert forall|t: int| 0 <= t < es1[k].1.len() implies 1 <= (
                                #[trigger] es1[k].1[t]) <= m1.names.len() by {
                                    if t < es0[k].1.len() {
                                        assert(es1[k].1[t] == es0[k].1[t]);
                                    }
                                }
                            } else {
                                assert(es1[k] == es0[k]);
                            }
                        }
                        assert(index_wf(self@));
                    }
                }
                return ;
            }
            i += 1;
        }
        proof {
            lemma_edge_index_absent(es0, from_id);
        }
        let mut callees: Vec<u64> = Vec::new();
        callees.push(to_id);
        self.edges.push(EdgeList { caller: from_id, callees });
        proof {
            assert(self@.edges =~= es0.push((from_id, seq![to_id])));
            assert(self@ =~= record_edge(old(self)@, from@, to@));
            if old(self).wf() {
                let es1 = self@.edges;
                assert forall|k: int| 0 <= k < es1.len() implies 1 <= (#[trigger] es1[k]).0
                    <= m1.names.len() && (forall|t: int|
                    0 <= t < es1[k].1.len() ==> 1 <= #[trigger] es1[k].1[t]
                        <= m1.names.len()) by {
                    if k < es0.len() {
                        assert(es1[k] == es0[k]);
                    } else {
                        assert(es1[k] == (from_id, seq![to_id]));
                    }
                }
                assert(index_wf(self@));
            }
        }
    }
}

} // verus!
