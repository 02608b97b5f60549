//! The extractor: consumes one parsed file (plain syntax tree plus source
//! text) and populates the symbol table, declaration store and edge store.
//! Extraction is total and best-effort: missing fields degrade to placeholder
//! values, never to an error.

use vstd::prelude::*;
use vstd::string::StringExecFns;
use crate::decls::Class;
use crate::decls::ClassRecord;
use crate::decls::Function;
use crate::decls::FunRecord;
use crate::decls::fun_key;
use crate::index::CodeIndex;
use crate::index::IndexModel;
use crate::index::index_wf;
use crate::index::record_class;
use crate::index::record_edge;
use crate::index::record_function;
use crate::interner::intern_names;
use crate::syntax::SyntaxNode;
use crate::syntax::child_by_field_name;
use crate::syntax::child_by_field;
use crate::syntax::collect_rec;
use crate::syntax::deref_nodes;
use crate::syntax::field_text;
use crate::syntax::kind_either;
use crate::syntax::kind_is;
use crate::syntax::str_by_field_name;
use crate::syntax::walk_collect;
use crate::syntax::walk_collect_two;
use crate::text::rewrite_this;
use crate::text::rewrite_this_call;
use crate::text::str_eq;
use crate::text::substr;
use crate::text::substr_spec;

verus! {

/// The kind tag of class declarations.
pub open spec fn class_kind() -> Seq<char> {
    "class_declaration"@
}

/// The kind tag of free function declarations.
pub open spec fn function_kind() -> Seq<char> {
    "function_declaration"@
}

/// The kind tag of method definitions.
pub open spec fn method_kind() -> Seq<char> {
    "method_definition"@
}

/// The kind tag of call expressions.
pub open spec fn call_kind() -> Seq<char> {
    "call_expression"@
}

/// The field label of a declaration's name.
pub open spec fn name_field() -> Seq<char> {
    "name"@
}

/// The field label of a declaration's body.
pub open spec fn body_field() -> Seq<char> {
    "body"@
}

/// The field label of a call expression's callee.
pub open spec fn function_field() -> Seq<char> {
    "function"@
}

/// The sentinel recorded for a function or method whose name field is absent.
pub open spec fn missing_name() -> Seq<char> {
    "<anonymous>"@
}

/// The call expressions below a declaration's body, in walk order; a
/// declaration without a body field has none.
pub open spec fn body_calls(node: SyntaxNode) -> Seq<SyntaxNode> {
    match child_by_field(node.children@, body_field()) {
        Some(b) => collect_rec(seq![b], kind_is(call_kind())),
        None => Seq::empty(),
    }
}

/// The model after processing one call expression: the callee text of its
/// `function` field is rewritten (a leading `this.` becomes the class prefix,
/// when inside a method) and one edge is recorded; a call without extractable
/// callee text records nothing.
pub open spec fn extract_call(
    m: IndexModel,
    call: SyntaxNode,
    caller: Seq<char>,
    clsdot: Option<Seq<char>>,
    content: Seq<char>,
) -> IndexModel {
    match field_text(call, function_field(), content) {
        Some(t) => {
            let callee = match clsdot {
                Some(cd) => rewrite_this(t, cd),
                None => t,
            };
            record_edge(m, caller, callee)
        },
        None => m,
    }
}

/// `extract_call` folded over the call expressions in walk order.
pub open spec fn extract_calls(
    m: IndexModel,
    calls: Seq<SyntaxNode>,
    caller: Seq<char>,
    clsdot: Option<Seq<char>>,
    content: Seq<char>,
) -> IndexModel
    decreases calls.len(),
{
    if calls.len() == 0 {
        m
    } else {
        extract_calls(
            extract_call(m, calls[0], caller, clsdot, content),
            calls.drop_first(),
            caller,
            clsdot,
            content,
        )
    }
}

/// The fold over calls peels one call off the back.
pub proof fn lemma_extract_calls_push(
    m: IndexModel,
    calls: Seq<SyntaxNode>,
    x: SyntaxNode,
    caller: Seq<char>,
    clsdot: Option<Seq<char>>,
    content: Seq<char>,
)
    ensures
        extract_calls(m, calls.push(x), caller, clsdot, content) == extract_call(
            extract_calls(m, calls, caller, clsdot, content),
            x,
            caller,
            clsdot,
            content,
        ),
    decreases calls.len(),
{
    reveal_with_fuel(extract_calls, 3);
    if calls.len() == 0 {
        assert(calls.push(x).drop_first() =~= Seq::<SyntaxNode>::empty());
        assert(calls.push(x)[0] == x);
    } else {
        assert(calls.push(x).drop_first() =~= calls.drop_first().push(x));
        assert(calls.push(x)[0] == calls[0]);
        lemma_extract_calls_push(
            extract_call(m, calls[0], caller, clsdot, content),
            calls.drop_first(),
            x,
            caller,
            clsdot,
            content,
        );
    }
}

/// The model after extracting one free function declaration: its name (or the
/// anonymous sentinel) becomes the qualified name, which is interned; the
/// declaration is recorded with the body text (or an empty body); and every
/// call expression below the node adds one edge, in walk order.
pub open spec fn extract_function(m: IndexModel, node: SyntaxNode, content: Seq<char>) -> IndexModel {
    let caller = match field_text(node, name_field(), content) {
        Some(t) => t,
        None => missing_name(),
    };
    let body = match field_text(node, body_field(), content) {
        Some(t) => t,
        None => Seq::empty(),
    };
    let f = FunRecord { name: caller, pkg: Seq::empty(), body };
    let m1 = IndexModel { names: intern_names(m.names, caller), ..m };
    let m2 = record_function(m1, f);
    extract_calls(m2, body_calls(node), caller, None, content)
}

/// The model after extracting one method definition inside class `clsname`:
/// as for a free function, except that the qualified name joins class and
/// method name, and callee texts have a leading `this.` rewritten to the
/// class prefix.
pub open spec fn extract_method(
    m: IndexModel,
    method: SyntaxNode,
    clsname: Seq<char>,
    content: Seq<char>,
) -> IndexModel {
    let mname = match field_text(method, name_field(), content) {
        Some(t) => t,
        None => missing_name(),
    };
    let body = match field_text(method, body_field(), content) {
        Some(t) => t,
        None => Seq::empty(),
    };
    let f = FunRecord { name: mname, pkg: clsname, body };
    let caller = fun_key(f);
    let m1 = IndexModel { names: intern_names(m.names, caller), ..m };
    let m2 = record_function(m1, f);
    extract_calls(m2, body_calls(method), caller, Some(clsname + seq!['.']), content)
}

/// `extract_method` folded over the methods in walk order.
pub open spec fn extract_methods(
    m: IndexModel,
    methods: Seq<SyntaxNode>,
    clsname: Seq<char>,
    content: Seq<char>,
) -> IndexModel
    decreases methods.len(),
{
    if methods.len() == 0 {
        m
    } else {
        extract_methods(
            extract_method(m, methods[0], clsname, content),
            methods.drop_first(),
            clsname,
            content,
        )
    }
}

/// The fold over methods peels one method off the back.
pub proof fn lemma_extract_methods_push(
    m: IndexModel,
    methods: Seq<SyntaxNode>,
    x: SyntaxNode,
    clsname: Seq<char>,
    content: Seq<char>,
)
    ensures
        extract_methods(m, methods.push(x), clsname, content) == extract_method(
            extract_methods(m, methods, clsname, content),
            x,
            clsname,
            content,
        ),
    decreases methods.len(),
{
    reveal_with_fuel(extract_methods, 3);
    if methods.len() == 0 {
        assert(methods.push(x).drop_first() =~= Seq::<SyntaxNode>::empty());
        assert(methods.push(x)[0] == x);
    } else {
        assert(methods.push(x).drop_first() =~= methods.drop_first().push(x));
        assert(methods.push(x)[0] == methods[0]);
        lemma_extract_methods_push(
            extract_method(m, methods[0], clsname, content),
            methods.drop_first(),
            x,
            clsname,
            content,
        );
    }
}

/// The model after extracting one class declaration: the class name (empty
/// when the name field is missing), a class record whose header text spans
/// from the class's start to the start of its first method (or to the class's
/// end when it has no methods), and every method in walk order.
pub open spec fn extract_class(m: IndexModel, node: SyntaxNode, content: Seq<char>) -> IndexModel {
    let clsname = match field_text(node, name_field(), content) {
        Some(t) => t,
        None => Seq::empty(),
    };
    let methods = collect_rec(seq![node], kind_is(method_kind()));
    let header_end = if methods.len() > 0 {
        methods[0].start as int
    } else {
        node.end as int
    };
    let m1 = match substr_spec(content, node.start as int, header_end) {
        Some(decl) => record_class(m, ClassRecord { name: clsname, declaration: decl }),
        None => m,
    };
    extract_methods(m1, methods, clsname, content)
}

/// The extraction step for one collected declaration node, by kind.
pub open spec fn extract_decl(m: IndexModel, node: SyntaxNode, content: Seq<char>) -> IndexModel {
    if node.kind@ == class_kind() {
        extract_class(m, node, content)
    } else {
        extract_function(m, node, content)
    }
}

/// `extract_decl` folded over the declarations in walk order.
pub open spec fn extract_decls(m: IndexModel, decls: Seq<SyntaxNode>, content: Seq<char>) -> IndexModel
    decreases decls.len(),
{
    if decls.len() == 0 {
        m
    } else {
        extract_decls(extract_decl(m, decls[0], content), decls.drop_first(), content)
    }
}

/// The fold over declarations peels one declaration off the back.
pub proof fn lemma_extract_decls_push(
    m: IndexModel,
    decls: Seq<SyntaxNode>,
    x: SyntaxNode,
    content: Seq<char>,
)
    ensures
        extract_decls(m, decls.push(x), content) == extract_decl(
            extract_decls(m, decls, content),
            x,
            content,
        ),
    decreases decls.len(),
{
    reveal_with_fuel(extract_decls, 3);
    if decls.len() == 0 {
        assert(decls.push(x).drop_first() =~= Seq::<SyntaxNode>::empty());
        assert(decls.push(x)[0] == x);
    } else {
        assert(decls.push(x).drop_first() =~= decls.drop_first().push(x));
        assert(decls.push(x)[0] == decls[0]);
        lemma_extract_decls_push(extract_decl(m, decls[0], content), decls.drop_first(), x, content);
    }
}

/// The model after extracting one parsed file: every class-declaration and
/// function-declaration node anywhere in the tree — kind-based, not
/// scope-based — processed in walk order.
pub open spec fn extract_tree(m: IndexModel, root: SyntaxNode, content: Seq<char>) -> IndexModel {
    extract_decls(m, collect_rec(seq![root], kind_either(class_kind(), function_kind())), content)
}

/// A class with no method definitions below it yields one header record
/// spanning the class's entire text, and adds no function records and no
/// edges.
pub proof fn lemma_class_without_methods(m: IndexModel, node: SyntaxNode, content: Seq<char>)
    requires
        collect_rec(seq![node], kind_is(method_kind())).len() == 0,
        node.start <= node.end <= content.len(),
    ensures
        extract_class(m, node, content) == record_class(
            m,
            ClassRecord {
                name: match field_text(node, name_field(), content) {
                    Some(t) => t,
                    None => Seq::empty(),
                },
                declaration: content.subrange(node.start as int, node.end as int),
            },
        ),
{
}

impl CodeIndex {
    /// Extracts declarations and call edges from one parsed file, given as the
    /// plain syntax tree plus the file's source text.
    #[verifier::loop_isolation(false)]
    pub fn extract_file(&mut self, root: &SyntaxNode, content: &str)
        ensures
            final(self)@ == extract_tree(old(self)@, *root, content@),
            old(self).wf() ==> final(self).wf(),
    {
        let decls = walk_collect_two(root, "class_declaration", "function_declaration");
        let ghost ds = deref_nodes(decls@);
        let n = decls.len();
        let mut i: usize = 0;
        proof {
            assert(ds.take(0) =~= Seq::<SyntaxNode>::empty());
        }
        while i < n
            invariant
                i <= n,
                n == decls@.len(),
                self@ == extract_decls(old(self)@, ds.take(i as int), content@),
                old(self).wf() ==> index_wf(self@),
            decreases n - i,
        {
            let d: &SyntaxNode = decls[i];
            let ghost taken = ds.take(i as int + 1);
            proof {
                assert(*d == ds[i as int]);
                assert(taken.drop_last() =~= ds.take(i as int));
                assert(taken.last() == ds[i as int]);
                assert(taken =~= ds.take(i as int).push(ds[i as int]));
                lemma_extract_decls_push(old(self)@, ds.take(i as int), ds[i as int], content@);
            }
            if str_eq(d.kind.as_str(), "class_declaration") {
                self.parse_class_declaration(d, content);
            } else {
                self.parse_function_declaration(d, content);
            }
            proof {
                assert(self@ == extract_decls(old(self)@, taken, content@));
            }
            i += 1;
        }
        proof {
            assert(ds.take(n as int) =~= ds);
        }
    }

    /// Extracts one free function declaration: records it and one edge per
    /// call site below it.
    #[verifier::loop_isolation(false)]
    fn parse_function_declaration(&mut self, node: &SyntaxNode, content: &str)
        ensures
            final(self)@ == extract_function(old(self)@, *node, content@),
            old(self).wf() ==> final(self).wf(),
    {
        let caller: String = match str_by_field_name(node, "name", content) {
            Some(s) => s,
            None => String::from_str("<anonymous>"),
        };
        let body: String = match str_by_field_name(node, "body", content) {
            Some(s) => s,
            None => String::new(),
        };
        let function = Function { name: caller.clone(), pkg: String::new(), body };
        proof {
            assert(fun_key(function@) == caller@);
        }
        self.intern(&caller);
        self.add_function(&function);
        let ghost m2 = self@;
        let calls: Vec<&SyntaxNode> = match child_by_field_name(node, "body") {
            Some(b) => walk_collect(b, "call_expression"),
            None => Vec::new(),
        };
        let ghost cs = deref_nodes(calls@);
        proof {
            assert(cs =~= body_calls(*node));
        }
        let n = calls.len();
        let mut i: usize = 0;
        proof {
            assert(cs.take(0) =~= Seq::<SyntaxNode>::empty());
        }
        while i < n
            invariant
                i <= n,
                n == calls@.len(),
                self@ == extract_calls(m2, cs.take(i as int), caller@, None, content@),
                old(self).wf() ==> index_wf(self@),
            decreases n - i,
        {
            let call: &SyntaxNode = calls[i];
            let ghost taken = cs.take(i as int + 1);
            proof {
                assert(*call == cs[i as int]);
                assert(taken.drop_last() =~= cs.take(i as int));
                assert(taken.last() == cs[i as int]);
                assert(taken =~= cs.take(i as int).push(cs[i as int]));
                lemma_extract_calls_push(
                    m2,
                    cs.take(i as int),
                    cs[i as int],
                    caller@,
                    None,
                    content@,
                );
            }
            match str_by_field_name(call, "function", content) {
                Some(callee) => {
                    self.add_edge(&caller, &callee);
                },
                None => {},
            }
            proof {
                assert(self@ == extract_calls(m2, taken, caller@, None, content@));
            }
            i += 1;
        }
        proof {
            assert(cs.take(n as int) =~= cs);
        }
    }

    /// Extracts one method definition inside the class called `clsname`;
    /// `clsdot` is the class name followed by a dot.
    #[verifier::loop_isolation(false)]
    fn parse_method(&mut self, method: &SyntaxNode, clsname: &String, clsdot: &String, content: &str)
        requires
            clsdot@ == clsname@ + seq!['.'],
        ensures
            final(self)@ == extract_method(old(self)@, *method, clsname@, content@),
            old(self).wf() ==> final(self).wf(),
    {
        let mname: String = match str_by_field_name(method, "name", content) {
            Some(s) => s,
            None => String::from_str("<anonymous>"),
        };
        let body: String = match str_by_field_name(method, "body", content) {
            Some(s) => s,
            None => String::new(),
        };
        let sig = Function { name: mname, pkg: clsname.clone(), body };
        let caller = sig.str();
        self.intern(&caller);
        self.add_function(&sig);
        let ghost m2 = self@;
        let calls: Vec<&SyntaxNode> = match child_by_field_name(method, "body") {
            Some(b) => walk_collect(b, "call_expression"),
            None => Vec::new(),
        };
        let ghost cs = deref_nodes(calls@);
        proof {
            assert(cs =~= body_calls(*method));
        }
        let n = calls.len();
        let mut i: usize = 0;
        proof {
            assert(cs.take(0) =~= Seq::<SyntaxNode>::empty());
        }
        while i < n
            invariant
                i <= n,
                n == calls@.len(),
                self@ == extract_calls(m2, cs.take(i as int), caller@, Some(clsdot@), content@),
                old(self).wf() ==> index_wf(self@),
            decreases n - i,
        {
            let call: &SyntaxNode = calls[i];
            let ghost taken = cs.take(i as int + 1);
            proof {
                assert(*call == cs[i as int]);
                assert(taken.drop_last() =~= cs.take(i as int));
                assert(taken.last() == cs[i as int]);
                assert(taken =~= cs.take(i as int).push(cs[i as int]));
                lemma_extract_calls_push(
                    m2,
                    cs.take(i as int),
                    cs[i as int],
                    caller@,
                    Some(clsdot@),
                    content@,
                );
            }
            match str_by_field_name(call, "function", content) {
                Some(callee) => {
                    let rewritten = rewrite_this_call(&callee, clsdot);
                    self.add_edge(&caller, &rewritten);
                },
                None => {},
            }
            proof {
                assert(self@ == extract_calls(m2, taken, caller@, Some(clsdot@), content@));
            }
            i += 1;
        }
        proof {
            assert(cs.take(n as int) =~= cs);
        }
    }

    /// Extracts one class declaration: the class record with its header text,
    /// then every method definition below the node.
    #[verifier::loop_isolation(false)]
    fn parse_class_declaration(&mut self, node: &SyntaxNode, content: &str)
        ensures
            final(self)@ == extract_class(old(self)@, *node, content@),
            old(self).wf() ==> final(self).wf(),
    {
        let clsname: String = match str_by_field_name(node, "name", content) {
            Some(s) => s,
            None => String::new(),
        };
        let mut clsdot: String = clsname.clone();
        clsdot.append(".");
        proof {
            reveal_strlit(".");
            assert(clsdot@ =~= clsname@ + seq!['.']);
        }
        let methods = walk_collect(node, "method_definition");
        let ghost ms = deref_nodes(methods@);
        let end_off: usize = if methods.len() > 0 {
            proof {
                assert(ms[0] == *methods@[0]);
            }
            methods[0].start
        } else {
            node.end
        };
        match substr(content, node.start, end_off) {
            Some(declaration) => {
                let cls = Class { name: clsname.clone(), declaration };
                self.add_class(&cls);
            },
            None => {},
        }
        let ghost m1 = self@;
        let n = methods.len();
        let mut i: usize = 0;
        proof {
            assert(ms.take(0) =~= Seq::<SyntaxNode>::empty());
        }
        while i < n
            invariant
                i <= n,
                n == methods@.len(),
                self@ == extract_methods(m1, ms.take(i as int), clsname@, content@),
                old(self).wf() ==> index_wf(self@),
            decreases n - i,
        {
            let method: &SyntaxNode = methods[i];
            let ghost taken = ms.take(i as int + 1);
            proof {
                assert(*method == ms[i as int]);
                assert(taken.drop_last() =~= ms.take(i as int));
                assert(taken.last() == ms[i as int]);
                assert(taken =~= ms.take(i as int).push(ms[i as int]));
                lemma_extract_methods_push(m1, ms.take(i as int), ms[i as int], clsname@, content@);
            }
            self.parse_method(method, &clsname, &clsdot, content);
            proof {
                assert(self@ == extract_methods(m1, taken, clsname@, content@));
            }
            i += 1;
        }
        proof {
            assert(ms.take(n as int) =~= ms);
        }
    }
}

} // verus!
