use vstd::prelude::*;

verus! {

use std::sync::Arc;
use crate::error::RouteError;
use crate::method::Method;
use crate::path::{
    fragment_model,
    fragment_ok,
    parse_fragment,
    path_eq,
    path_wf,
    PathComp,
    SegmentPath,
};
use crate::reverse_router::{has_name, lemma_register_all_append, register_all, ReverseRouter};
use crate::util::clone_chain;

/// One flattened route registration: the absolute path from the root, the
/// bound verb (`None` for a catch-all endpoint), the middleware chain in
/// root-to-leaf order, and the endpoint itself.
#[derive(Debug, PartialEq)]
pub struct EndpointDescriptor<E, M> {
    pub path: SegmentPath,
    pub method: Option<Method>,
    pub middleware: Vec<Arc<M>>,
    pub endpoint: E,
}

/// The mathematical form of a descriptor.
pub struct DescModel<E, M> {
    pub path: Seq<PathComp>,
    pub method: Option<Method>,
    pub middleware: Seq<Arc<M>>,
    pub endpoint: E,
}

impl<E, M> View for EndpointDescriptor<E, M> {
    type V = DescModel<E, M>;

    open spec fn view(&self) -> DescModel<E, M> {
        DescModel {
            path: self.path@,
            method: self.method,
            middleware: self.middleware@,
            endpoint: self.endpoint,
        }
    }
}

pub open spec fn descs_model<E, M>(v: Seq<EndpointDescriptor<E, M>>) -> Seq<DescModel<E, M>> {
    v.map_values(|d: EndpointDescriptor<E, M>| d@)
}

/// A node of the route tree: its own path fragment relative to its parent,
/// the middleware attached at it, its verb bindings in declaration order,
/// an optional catch-all endpoint, the route names registered at it, and
/// its children in declaration order.
pub struct RouteSegment<E, M> {
    pub path: SegmentPath,
    pub middleware: Vec<Arc<M>>,
    pub methods: Vec<(Method, E)>,
    pub catch_all: Option<E>,
    pub names: Vec<String>,
    pub children: Vec<RouteSegment<E, M>>,
}

/// Some binding of the sequence uses the verb.
pub open spec fn has_method<E>(methods: Seq<(Method, E)>, verb: Method) -> bool {
    exists|i: int| 0 <= i < methods.len() && (#[trigger] methods[i]).0 == verb
}

/// No verb is bound twice.
pub open spec fn methods_unique<E>(methods: Seq<(Method, E)>) -> bool {
    forall|i: int, j: int|
        0 <= i < j < methods.len() ==> (#[trigger] methods[i]).0 != (#[trigger] methods[j]).0
}

pub open spec fn names_model(v: Seq<String>) -> Seq<Seq<char>> {
    v.map_values(|n: String| n@)
}

/// The descriptors of the verb bindings of one node, in declaration order.
pub open spec fn method_descs<E, M>(
    abs: Seq<PathComp>,
    chain: Seq<Arc<M>>,
    methods: Seq<(Method, E)>,
) -> Seq<DescModel<E, M>>
    decreases methods.len(),
{
    if methods.len() == 0 {
        Seq::empty()
    } else {
        seq![
            DescModel {
                path: abs,
                method: Some(methods[0].0),
                middleware: chain,
                endpoint: methods[0].1,
            },
        ] + method_descs(abs, chain, methods.drop_first())
    }
}

/// All descriptors of one node itself: its verb bindings in declaration
/// order, then its catch-all endpoint if one is set.
pub open spec fn own_descs<E, M>(
    abs: Seq<PathComp>,
    chain: Seq<Arc<M>>,
    methods: Seq<(Method, E)>,
    catch_all: Option<E>,
) -> Seq<DescModel<E, M>> {
    method_descs(abs, chain, methods) + match catch_all {
        Some(e) => seq![
            DescModel { path: abs, method: None::<Method>, middleware: chain, endpoint: e },
        ],
        None => Seq::empty(),
    }
}

/// The depth-first pre-order flattening of a subtree: the node's own
/// descriptors first, then those of each child in declaration order, with
/// the absolute path and the middleware chain accumulated top-down.
pub open spec fn flatten_seg<E, M>(
    seg: RouteSegment<E, M>,
    prefix: Seq<PathComp>,
    mw: Seq<Arc<M>>,
) -> Seq<DescModel<E, M>>
    decreases seg, 1int,
{
    own_descs(prefix + seg.path@, mw + seg.middleware@, seg.methods@, seg.catch_all)
        + flatten_children(seg.children@, prefix + seg.path@, mw + seg.middleware@)
}

pub open spec fn flatten_children<E, M>(
    cs: Seq<RouteSegment<E, M>>,
    prefix: Seq<PathComp>,
    mw: Seq<Arc<M>>,
) -> Seq<DescModel<E, M>>
    decreases cs, 0int,
{
    if cs.len() == 0 {
        Seq::empty()
    } else {
        flatten_seg(cs[0], prefix, mw) + flatten_children(cs.drop_first(), prefix, mw)
    }
}

/// Well-formedness of a subtree: every fragment is normalized and no node
/// binds a verb twice.
pub open spec fn seg_wf<E, M>(seg: RouteSegment<E, M>) -> bool
    decreases seg,
{
    &&& path_wf(seg.path@)
    &&& methods_unique(seg.methods@)
    &&& forall|i: int| 0 <= i < seg.children@.len() ==> seg_wf(#[trigger] seg.children@[i])
}

impl<E, M> RouteSegment<E, M> {
    /// A node with the given fragment and nothing else.
    pub open spec fn is_blank(self, frag: Seq<PathComp>) -> bool {
        &&& self.path@ == frag
        &&& self.middleware@.len() == 0
        &&& self.methods@.len() == 0
        &&& self.catch_all is None
        &&& self.names@.len() == 0
        &&& self.children@.len() == 0
    }

    pub open spec fn same_except_methods(pre: Self, post: Self) -> bool {
        &&& post.path == pre.path
        &&& post.middleware == pre.middleware
        &&& post.catch_all == pre.catch_all
        &&& post.names == pre.names
        &&& post.children == pre.children
    }

    pub open spec fn same_except_catch_all(pre: Self, post: Self) -> bool {
        &&& post.path == pre.path
        &&& post.middleware == pre.middleware
        &&& post.methods == pre.methods
        &&& post.names == pre.names
        &&& post.children == pre.children
    }

    pub open spec fn same_except_names(pre: Self, post: Self) -> bool {
        &&& post.path == pre.path
        &&& post.middleware == pre.middleware
        &&& post.methods == pre.methods
        &&& post.catch_all == pre.catch_all
        &&& post.children == pre.children
    }

    pub open spec fn same_except_children(pre: Self, post: Self) -> bool {
        &&& post.path == pre.path
        &&& post.middleware == pre.middleware
        &&& post.methods == pre.methods
        &&& post.catch_all == pre.catch_all
        &&& post.names == pre.names
    }

    pub open spec fn same_except_middleware(pre: Self, post: Self) -> bool {
        &&& post.path == pre.path
        &&& post.methods == pre.methods
        &&& post.catch_all == pre.catch_all
        &&& post.names == pre.names
        &&& post.children == pre.children
    }

    /// What binding a verb does: a second binding of the same verb at one
    /// node is rejected, otherwise the binding is appended.
    pub open spec fn method_step(
        pre: Self,
        verb: Method,
        endpoint: E,
        r: Result<Self, RouteError>,
    ) -> bool {
        if has_method(pre.methods@, verb) {
            r == Err::<Self, RouteError>(RouteError::DuplicateMethod(verb))
        } else {
            match r {
                Ok(s) => s.methods@ == pre.methods@.push((verb, endpoint))
                    && Self::same_except_methods(pre, s),
                Err(_) => false,
            }
        }
    }

    /// Binds `endpoint` to `verb` at this node.  Binding the same verb a
    /// second time at one node is a structural error, never a silent
    /// overwrite.
    pub fn method(self, verb: Method, endpoint: E) -> (r: Result<Self, RouteError>)
        ensures
            Self::method_step(self, verb, endpoint, r),
    {
        let mut i: usize = 0;
        while i < self.methods.len()
            invariant
                i <= self.methods.len(),
                forall|k: int| 0 <= k < i ==> (#[trigger] self.methods@[k]).0 != verb,
            decreases self.methods.len() - i,
        {
            if self.methods[i].0 == verb {
                proof {
                    assert(has_method(self.methods@, verb));
                }
                return Err(RouteError::DuplicateMethod(verb));
            }
            i += 1;
        }
        proof {
            assert(!has_method(self.methods@, verb));
        }
        let mut s = self;
        s.methods.push((verb, endpoint));
        Ok(s)
    }

    pub fn get(self, endpoint: E) -> (r: Result<Self, RouteError>)
        ensures
            Self::method_step(self, Method::Get, endpoint, r),
    {
        self.method(Method::Get, endpoint)
    }

    pub fn post(self, endpoint: E) -> (r: Result<Self, RouteError>)
        ensures
            Self::method_step(self, Method::Post, endpoint, r),
    {
        self.method(Method::Post, endpoint)
    }

    pub fn put(self, endpoint: E) -> (r: Result<Self, RouteError>)
        ensures
            Self::method_step(self, Method::Put, endpoint, r),
    {
        self.method(Method::Put, endpoint)
    }

    pub fn delete(self, endpoint: E) -> (r: Result<Self, RouteError>)
        ensures
            Self::method_step(self, Method::Delete, endpoint, r),
    {
        self.method(Method::Delete, endpoint)
    }

    pub fn head(self, endpoint: E) -> (r: Result<Self, RouteError>)
        ensures
            Self::method_step(self, Method::Head, endpoint, r),
    {
        self.method(Method::Head, endpoint)
    }

    pub fn options(self, endpoint: E) -> (r: Result<Self, RouteError>)
        ensures
            Self::method_step(self, Method::Options, endpoint, r),
    {
        self.method(Method::Options, endpoint)
    }

    pub fn connect(self, endpoint: E) -> (r: Result<Self, RouteError>)
        ensures
            Self::method_step(self, Method::Connect, endpoint, r),
    {
        self.method(Method::Connect, endpoint)
    }

    pub fn patch(self, endpoint: E) -> (r: Result<Self, RouteError>)
        ensures
            Self::method_step(self, Method::Patch, endpoint, r),
    {
        self.method(Method::Patch, endpoint)
    }

    pub fn trace(self, endpoint: E) -> (r: Result<Self, RouteError>)
        ensures
            Self::method_step(self, Method::Trace, endpoint, r),
    {
        self.method(Method::Trace, endpoint)
    }

    /// What setting the catch-all does: a second catch-all at one node is
    /// rejected.
    pub open spec fn catch_all_step(pre: Self, endpoint: E, r: Result<Self, RouteError>) -> bool {
        if pre.catch_all is Some {
            r == Err::<Self, RouteError>(RouteError::DuplicateCatchAll)
        } else {
            match r {
                Ok(s) => s.catch_all == Some(endpoint) && Self::same_except_catch_all(pre, s),
                Err(_) => false,
            }
        }
    }

    /// Sets the catch-all endpoint of this node, used when no explicit
    /// verb binding matches.
    pub fn all(self, endpoint: E) -> (r: Result<Self, RouteError>)
        ensures
            Self::catch_all_step(self, endpoint, r),
    {
        if self.catch_all.is_some() {
            return Err(RouteError::DuplicateCatchAll);
        }
        let mut s = self;
        s.catch_all = Some(endpoint);
        Ok(s)
    }

    /// Registers a route name at this node; the template it resolves to is
    /// the node's absolute path, and duplicates across the tree are caught
    /// when the reverse router is assembled.
    pub fn name(self, route_name: &str) -> (r: Self)
        ensures
            names_model(r.names@) == names_model(self.names@).push(route_name@),
            Self::same_except_names(self, r),
    {
        let ghost pre = self;
        let mut s = self;
        s.names.push(route_name.to_owned());
        proof {
            assert(names_model(s.names@) =~= names_model(pre.names@).push(route_name@));
        }
        s
    }

    /// The first child whose fragment equals `frag`, at or after `i`.
    pub open spec fn find_child_idx(cs: Seq<Self>, frag: Seq<PathComp>, i: int) -> Option<int>
        decreases cs.len() - i,
    {
        if i < 0 || i >= cs.len() {
            None
        } else if cs[i].path@ == frag {
            Some(i)
        } else {
            Self::find_child_idx(cs, frag, i + 1)
        }
    }

    /// The node that the configuration closure of `at` receives: the
    /// existing child addressed by the fragment, or a blank new one.
    pub open spec fn at_input(pre: Self, frag: Seq<PathComp>, c0: Self) -> bool {
        match Self::find_child_idx(pre.children@, frag, 0) {
            Some(i) => c0 == pre.children@[i],
            None => c0.is_blank(frag),
        }
    }

    /// How the parent looks after `at`: the configured child stands in
    /// place of the existing one, or is appended as a new child.
    pub open spec fn at_output(pre: Self, frag: Seq<PathComp>, c1: Self, post: Self) -> bool {
        &&& Self::same_except_children(pre, post)
        &&& match Self::find_child_idx(pre.children@, frag, 0) {
            Some(i) => post.children@ == pre.children@.update(i, c1),
            None => post.children@ == pre.children@.push(c1),
        }
    }

    fn find_child(children: &Vec<Self>, target: &SegmentPath) -> (r: Option<usize>)
        ensures
            match r {
                Some(i) => i < children@.len() && Self::find_child_idx(children@, target@, 0)
                    == Some(i as int),
                None => Self::find_child_idx(children@, target@, 0) is None,
            },
    {
        let mut i: usize = 0;
        while i < children.len()
            invariant
                i <= children.len(),
                Self::find_child_idx(children@, target@, 0) == Self::find_child_idx(
                    children@,
                    target@,
                    i as int,
                ),
            decreases children.len() - i,
        {
            if path_eq(&children[i].path, target) {
                return Some(i);
            }
            i += 1;
        }
        None
    }

    /// Obtains or creates the child addressed by `fragment` (which may be
    /// multi-component), hands it to `configure`, and puts the configured
    /// child back in the parent's place: descending into an existing child
    /// re-enters and extends it.  Returns the parent for further chaining.
    pub fn at<F: FnOnce(Self) -> Result<Self, RouteError>>(
        self,
        fragment: &str,
        configure: F,
    ) -> (r: Result<Self, RouteError>)
        requires
            forall|c: Self| call_requires(configure, (c,)),
        ensures
            match r {
                Ok(s) => fragment_ok(fragment@) && (exists|c0: Self, c1: Self|
                    Self::at_input(self, fragment_model(fragment@), c0) && call_ensures(
                        configure,
                        (c0,),
                        Ok::<Self, RouteError>(c1),
                    ) && Self::at_output(self, fragment_model(fragment@), c1, s)),
                Err(e) => (!fragment_ok(fragment@) && e == RouteError::EmptyParameter) || (
                fragment_ok(fragment@) && (exists|c0: Self|
                    Self::at_input(self, fragment_model(fragment@), c0) && call_ensures(
                        configure,
                        (c0,),
                        Err::<Self, RouteError>(e),
                    ))),
            },
    {
        let sub = match parse_fragment(fragment) {
            Ok(p) => p,
            Err(e) => {
                return Err(e);
            },
        };
        let ghost frag = fragment_model(fragment@);
        let ghost pre = self;
        let mut s = self;
        match Self::find_child(&s.children, &sub) {
            Some(i) => {
                let child = s.children.remove(i);
                let ghost c0 = child;
                proof {
                    assert(Self::at_input(pre, frag, c0));
                }
                match configure(child) {
                    Ok(c1) => {
                        s.children.insert(i, c1);
                        proof {
                            assert(s.children@ =~= pre.children@.update(i as int, c1));
                        }
                        Ok(s)
                    },
                    Err(e) => Err(e),
                }
            },
            None => {
                let blank = RouteSegment {
                    path: sub,
                    middleware: Vec::new(),
                    methods: Vec::new(),
                    catch_all: None,
                    names: Vec::new(),
                    children: Vec::new(),
                };
                let ghost c0 = blank;
                proof {
                    assert(Self::at_input(pre, frag, c0));
                }
                match configure(blank) {
                    Ok(c1) => {
                        s.children.push(c1);
                        Ok(s)
                    },
                    Err(e) => Err(e),
                }
            },
        }
    }

    /// The node that the configuration closure of `with` receives: the
    /// node itself with the middleware appended to its own stack, so that
    /// it applies to the node and all of its descendants.
    pub open spec fn with_input(pre: Self, mw: Arc<M>, mid: Self) -> bool {
        &&& mid.middleware@ == pre.middleware@.push(mw)
        &&& Self::same_except_middleware(pre, mid)
    }

    /// Pushes `middleware` onto this node's stack and hands the node to
    /// `configure`; the middleware applies to the node and its whole
    /// subtree, never to siblings.
    pub fn with<F: FnOnce(Self) -> Result<Self, RouteError>>(
        self,
        middleware: Arc<M>,
        configure: F,
    ) -> (r: Result<Self, RouteError>)
        requires
            forall|c: Self| call_requires(configure, (c,)),
        ensures
            exists|mid: Self|
                Self::with_input(self, middleware, mid) && call_ensures(configure, (mid,), r),
    {
        let ghost pre = self;
        let mut s = self;
        s.middleware.push(middleware);
        let ghost mid = s;
        let r = configure(s);
        proof {
            assert(Self::with_input(pre, middleware, mid));
        }
        r
    }

    /// Flattens the tree into its ordered descriptor sequence, consuming
    /// it.  The result is exactly the depth-first flattening of the tree,
    /// so it is deterministic: declaration order is preserved, and each
    /// descriptor carries the middleware accumulated from the root.
    pub fn build(self) -> (r: Vec<EndpointDescriptor<E, M>>)
        ensures
            descs_model(r@) == flatten_seg(self, Seq::empty(), Seq::empty()),
    {
        let mut out: Vec<EndpointDescriptor<E, M>> = Vec::new();
        let prefix = SegmentPath::root();
        let mw: Vec<Arc<M>> = Vec::new();
        proof {
            assert(descs_model(out@) =~= Seq::<DescModel<E, M>>::empty());
            assert(mw@ =~= Seq::<Arc<M>>::empty());
        }
        self.flatten_into(&prefix, &mw, &mut out);
        out
    }

    /// Assembles the reverse router of the tree: walks it depth-first in
    /// the same order as flattening and registers every route name under
    /// its node's absolute template.  A name registered twice anywhere in
    /// the tree fails the whole build with a duplicate-name error naming
    /// it, before any router is handed out.
    pub fn reverse_router(&self) -> (r: Result<ReverseRouter, RouteError>)
        ensures
            match r {
                Ok(rr) => register_all(Seq::empty(), collect_names(*self, Seq::empty()))
                    matches Ok(m) && rr.model() == m,
                Err(e) => register_all(Seq::empty(), collect_names(*self, Seq::empty()))
                    matches Err(k) && e.is_duplicate_name(k),
            },
    {
        let mut rr = ReverseRouter::new();
        let prefix = SegmentPath::root();
        proof {
            assert(rr.model() =~= Seq::<(Seq<char>, Seq<PathComp>)>::empty());
            assert(prefix@ =~= Seq::<PathComp>::empty());
        }
        match self.collect_into(&prefix, &mut rr) {
            Ok(_) => Ok(rr),
            Err(e) => Err(e),
        }
    }

    #[verifier::loop_isolation(false)]
    fn collect_into(&self, prefix: &SegmentPath, rr: &mut ReverseRouter) -> (r: Result<
        (),
        RouteError,
    >)
        ensures
            match r {
                Ok(_) => register_all(old(rr).model(), collect_names(*self, prefix@))
                    matches Ok(m) && final(rr).model() == m,
                Err(e) => register_all(old(rr).model(), collect_names(*self, prefix@))
                    matches Err(k) && e.is_duplicate_name(k),
            },
        decreases *self,
    {
        let abs = prefix.join(&self.path);
        let ghost rr0 = old(rr).model();
        let ghost es = collect_names(*self, prefix@);
        let ghost ownes = own_entries(names_model(self.names@), abs@);
        let ghost childes = collect_children_names(self.children@, abs@);
        proof {
            assert(abs@ == prefix@ + self.path@);
            assert(es == ownes + childes);
            lemma_register_all_append(rr0, ownes, childes);
            assert(ownes.skip(0) =~= ownes);
            assert(ownes.len() == self.names@.len());
        }
        let mut i: usize = 0;
        while i < self.names.len()
            invariant
                i <= self.names.len(),
                register_all(rr0, ownes) == register_all(rr.model(), ownes.skip(i as int)),
            decreases self.names.len() - i,
        {
            let ghost rem = ownes.skip(i as int);
            let ghost mpre = rr.model();
            proof {
                assert(rem.len() > 0);
                assert(rem[0] == ownes[i as int]);
                assert(ownes[i as int] == (names_model(self.names@)[i as int], abs@));
                assert(names_model(self.names@)[i as int] == self.names@[i as int]@);
            }
            match rr.register(self.names[i].as_str(), abs.clone()) {
                Ok(_) => {
                    proof {
                        assert(rr.model() == mpre.push(rem[0]));
                        assert(rem.drop_first() =~= ownes.skip(i + 1 as int));
                        assert(register_all(mpre, rem) == register_all(
                            rr.model(),
                            ownes.skip(i + 1 as int),
                        ));
                    }
                },
                Err(e) => {
                    proof {
                        assert(has_name(mpre, rem[0].0));
                        assert(register_all(mpre, rem) == Err::<
                            Seq<(Seq<char>, Seq<PathComp>)>,
                            Seq<char>,
                        >(rem[0].0));
                        assert(register_all(rr0, es) == Err::<
                            Seq<(Seq<char>, Seq<PathComp>)>,
                            Seq<char>,
                        >(rem[0].0));
                    }
                    return Err(e);
                },
            }
            i += 1;
        }
        proof {
            assert(ownes.skip(ownes.len() as int) =~= Seq::<(Seq<char>, Seq<PathComp>)>::empty());
            assert(register_all(rr0, ownes) == Ok::<Seq<(Seq<char>, Seq<PathComp>)>, Seq<char>>(
                rr.model(),
            ));
            assert(self.children@.skip(0) =~= self.children@);
        }
        let mut j: usize = 0;
        while j < self.children.len()
            invariant
                j <= self.children.len(),
                abs@ == prefix@ + self.path@,
                register_all(rr0, es) == register_all(
                    rr.model(),
                    collect_children_names(self.children@.skip(j as int), abs@),
                ),
            decreases self.children.len() - j,
        {
            let ghost rem = self.children@.skip(j as int);
            let ghost mpre = rr.model();
            proof {
                assert(rem.len() > 0);
                assert(rem[0] == self.children@[j as int]);
                assert(collect_children_names(rem, abs@) == collect_names(rem[0], abs@)
                    + collect_children_names(rem.drop_first(), abs@));
                lemma_register_all_append(
                    mpre,
                    collect_names(self.children@[j as int], abs@),
                    collect_children_names(rem.drop_first(), abs@),
                );
                vstd::std_specs::vec::axiom_vec_decreases_to_view(self.children);
                vstd::seq::axiom_seq_index_decreases(self.children@, j as int);
                assert(decreases_to!(*self => self.children@[j as int]));
            }
            match self.children[j].collect_into(&abs, rr) {
                Ok(_) => {
                    proof {
                        assert(rem.drop_first() =~= self.children@.skip(j + 1 as int));
                        assert(register_all(rr0, es) == register_all(
                            rr.model(),
                            collect_children_names(self.children@.skip(j + 1 as int), abs@),
                        ));
                    }
                },
                Err(e) => {
                    return Err(e);
                },
            }
            j += 1;
        }
        proof {
            assert(self.children@.skip(self.children@.len() as int) =~= Seq::<
                RouteSegment<E, M>,
            >::empty());
            assert(register_all(rr0, es) == Ok::<Seq<(Seq<char>, Seq<PathComp>)>, Seq<char>>(
                rr.model(),
            ));
        }
        Ok(())
    }

    #[verifier::loop_isolation(false)]
    fn flatten_into(
        self,
        prefix: &SegmentPath,
        mw: &Vec<Arc<M>>,
        out: &mut Vec<EndpointDescriptor<E, M>>,
    )
        ensures
            descs_model(final(out)@) == descs_model(old(out)@) + flatten_seg(self, prefix@, mw@),
        decreases self,
    {
        let ghost g = self;
        let ghost out0 = old(out)@;
        let RouteSegment { path, middleware, methods, catch_all, names: _, children } = self;
        let abs = prefix.join(&path);
        let mut chain = clone_chain(mw);
        let mut own_mw = middleware;
        while own_mw.len() > 0
            invariant
                chain@ + own_mw@ =~= mw@ + g.middleware@,
            decreases own_mw.len(),
        {
            let m = own_mw.remove(0);
            chain.push(m);
        }
        proof {
            assert(chain@ =~= mw@ + g.middleware@);
            assert(abs@ == prefix@ + g.path@);
        }
        let mut methods = methods;
        while methods.len() > 0
            invariant
                abs@ == prefix@ + g.path@,
                chain@ == mw@ + g.middleware@,
                descs_model(out@) + method_descs(abs@, chain@, methods@) =~= descs_model(out0)
                    + method_descs(abs@, chain@, g.methods@),
            decreases methods.len(),
        {
            let ghost ms = methods@;
            let (verb, endpoint) = methods.remove(0);
            let d = EndpointDescriptor {
                path: abs.clone(),
                method: Some(verb),
                middleware: clone_chain(&chain),
                endpoint,
            };
            proof {
                assert(d@ == (DescModel {
                    path: abs@,
                    method: Some(verb),
                    middleware: chain@,
                    endpoint: d.endpoint,
                }));
            }
            out.push(d);
            proof {
                assert(method_descs(abs@, chain@, ms) == seq![
                    DescModel {
                        path: abs@,
                        method: Some(ms[0].0),
                        middleware: chain@,
                        endpoint: ms[0].1,
                    },
                ] + method_descs(abs@, chain@, ms.drop_first()));
                assert(methods@ =~= ms.drop_first());
                assert(descs_model(out@) + method_descs(abs@, chain@, methods@) =~= descs_model(
                    out0,
                ) + method_descs(abs@, chain@, g.methods@));
            }
        }
        proof {
            assert(method_descs(abs@, chain@, methods@) =~= Seq::<DescModel<E, M>>::empty());
            assert(descs_model(out@) =~= descs_model(out0) + method_descs(
                abs@,
                chain@,
                g.methods@,
            ));
        }
        if let Some(endpoint) = catch_all {
            let d = EndpointDescriptor {
                path: abs.clone(),
                method: None,
                middleware: clone_chain(&chain),
                endpoint,
            };
            proof {
                assert(d@ == (DescModel {
                    path: abs@,
                    method: None::<Method>,
                    middleware: chain@,
                    endpoint: d.endpoint,
                }));
            }
            let ghost prev = out@;
            let ghost dm = d@;
            out.push(d);
            proof {
                assert(out@ =~= prev.push(d));
                assert(descs_model(out@).len() == out@.len());
                assert(descs_model(prev).len() == prev.len());
                assert(descs_model(out@) =~= descs_model(prev) + seq![dm]);
            }
        }
        proof {
            assert(descs_model(out@) =~= descs_model(out0) + own_descs(
                abs@,
                chain@,
                g.methods@,
                g.catch_all,
            ));
        }
        let ghost base = descs_model(out0) + own_descs(abs@, chain@, g.methods@, g.catch_all);
        let mut children = children;
        let ghost mut done: int = 0;
        while children.len() > 0
            invariant
                abs@ == prefix@ + g.path@,
                chain@ == mw@ + g.middleware@,
                0 <= done <= g.children@.len(),
                children@ =~= g.children@.skip(done),
                descs_model(out@) + flatten_children(children@, abs@, chain@) =~= base
                    + flatten_children(g.children@, abs@, chain@),
            decreases children.len(),
        {
            let ghost cs = children@;
            let c = children.remove(0);
            proof {
                assert(cs[0] == g.children@[done]);
                vstd::std_specs::vec::axiom_vec_decreases_to_view(g.children);
                vstd::seq::axiom_seq_index_decreases(g.children@, done);
                assert(decreases_to!(g => g.children));
                assert(decreases_to!(g => c));
            }
            c.flatten_into(&abs, &chain, out);
            proof {
                done = done + 1;
                assert(children@ =~= g.children@.skip(done));
                assert(flatten_children(cs, abs@, chain@) == flatten_seg(cs[0], abs@, chain@)
                    + flatten_children(cs.drop_first(), abs@, chain@));
                assert(children@ =~= cs.drop_first());
                assert(descs_model(out@) + flatten_children(children@, abs@, chain@) =~= base
                    + flatten_children(g.children@, abs@, chain@));
            }
        }
        proof {
            assert(flatten_children(children@, abs@, chain@) =~= Seq::<DescModel<E, M>>::empty());
            assert(descs_model(out@) =~= descs_model(out0) + flatten_seg(g, prefix@, mw@));
        }
    }
}

/// The reverse-route entries of one node: each of its names, bound to the
/// node's absolute path template.
pub open spec fn own_entries(names: Seq<Seq<char>>, abs: Seq<PathComp>) -> Seq<
    (Seq<char>, Seq<PathComp>),
> {
    names.map_values(|n: Seq<char>| (n, abs))
}

/// Every named route of a subtree with its absolute template, in the same
/// depth-first pre-order as flattening.
pub open spec fn collect_names<E, M>(seg: RouteSegment<E, M>, prefix: Seq<PathComp>) -> Seq<
    (Seq<char>, Seq<PathComp>),
>
    decreases seg, 1int,
{
    own_entries(names_model(seg.names@), prefix + seg.path@) + collect_children_names(
        seg.children@,
        prefix + seg.path@,
    )
}

pub open spec fn collect_children_names<E, M>(
    cs: Seq<RouteSegment<E, M>>,
    prefix: Seq<PathComp>,
) -> Seq<(Seq<char>, Seq<PathComp>)>
    decreases cs, 0int,
{
    if cs.len() == 0 {
        Seq::empty()
    } else {
        collect_names(cs[0], prefix) + collect_children_names(cs.drop_first(), prefix)
    }
}

/// The root of a new route tree: the empty fragment with nothing bound.
pub fn root<E, M>() -> (r: RouteSegment<E, M>)
    ensures
        r.is_blank(Seq::empty()),
        seg_wf(r),
{
    let r = RouteSegment {
        path: SegmentPath::root(),
        middleware: Vec::new(),
        methods: Vec::new(),
        catch_all: None,
        names: Vec::new(),
        children: Vec::new(),
    };
    proof {
        assert(seg_wf(r));
    }
    r
}

pub proof fn lemma_method_descs_len<E, M>(
    abs: Seq<PathComp>,
    chain: Seq<Arc<M>>,
    methods: Seq<(Method, E)>,
)
    ensures
        method_descs(abs, chain, methods).len() == methods.len(),
    decreases methods.len(),
{
    if methods.len() > 0 {
        lemma_method_descs_len(abs, chain, methods.drop_first());
    }
}

/// For a tree of a single node, flattening yields exactly one descriptor
/// per verb binding, plus one if a catch-all endpoint is set.
pub proof fn lemma_flatten_leaf_count<E, M>(
    seg: RouteSegment<E, M>,
    prefix: Seq<PathComp>,
    mw: Seq<Arc<M>>,
)
    requires
        seg.children@.len() == 0,
    ensures
        flatten_seg(seg, prefix, mw).len() == seg.methods@.len() + (if seg.catch_all is Some {
            1int
        } else {
            0int
        }),
{
    lemma_method_descs_len(prefix + seg.path@, mw + seg.middleware@, seg.methods@);
}

proof fn lemma_method_descs_chain<E, M>(
    abs: Seq<PathComp>,
    chain: Seq<Arc<M>>,
    methods: Seq<(Method, E)>,
)
    ensures
        forall|i: int|
            0 <= i < method_descs(abs, chain, methods).len() ==> (#[trigger] method_descs(
                abs,
                chain,
                methods,
            )[i]).middleware == chain,
    decreases methods.len(),
{
    if methods.len() > 0 {
        lemma_method_descs_chain(abs, chain, methods.drop_first());
    }
}

/// The middleware chain handed down to a subtree is a prefix of the chain
/// of every descriptor the subtree yields: each descendant inherits every
/// ancestor's middleware, in root-to-leaf order, ahead of its own.
pub proof fn lemma_middleware_prefix<E, M>(
    seg: RouteSegment<E, M>,
    prefix: Seq<PathComp>,
    mw: Seq<Arc<M>>,
)
    ensures
        forall|i: int|
            0 <= i < flatten_seg(seg, prefix, mw).len() ==> mw.is_prefix_of(
                (#[trigger] flatten_seg(seg, prefix, mw)[i]).middleware,
            ),
    decreases seg, 1int,
{
    let abs = prefix + seg.path@;
    let chain = mw + seg.middleware@;
    let own = own_descs(abs, chain, seg.methods@, seg.catch_all);
    let rest = flatten_children(seg.children@, abs, chain);
    lemma_method_descs_chain(abs, chain, seg.methods@);
    lemma_children_middleware_prefix(seg.children@, abs, chain);
    assert forall|i: int|
        0 <= i < flatten_seg(seg, prefix, mw).len() implies mw.is_prefix_of(
        (#[trigger] flatten_seg(seg, prefix, mw)[i]).middleware,
    ) by {
        if i < own.len() {
            assert(flatten_seg(seg, prefix, mw)[i] == own[i]);
            assert(own[i].middleware == chain);
            assert(chain.take(mw.len() as int) =~= mw);
        } else {
            assert(flatten_seg(seg, prefix, mw)[i] == rest[i - own.len()]);
            let inner = rest[i - own.len()].middleware;
            assert(chain.is_prefix_of(inner));
            assert(inner.take(chain.len() as int) =~= chain);
            assert(inner.take(mw.len() as int) =~= chain.take(mw.len() as int));
            assert(chain.take(mw.len() as int) =~= mw);
        }
    }
}

proof fn lemma_children_middleware_prefix<E, M>(
    cs: Seq<RouteSegment<E, M>>,
    prefix: Seq<PathComp>,
    mw: Seq<Arc<M>>,
)
    ensures
        forall|i: int|
            0 <= i < flatten_children(cs, prefix, mw).len() ==> mw.is_prefix_of(
                (#[trigger] flatten_children(cs, prefix, mw)[i]).middleware,
            ),
    decreases cs, 2int,
{
    if cs.len() > 0 {
        lemma_middleware_prefix(cs[0], prefix, mw);
        lemma_children_middleware_prefix(cs.drop_first(), prefix, mw);
        let head = flatten_seg(cs[0], prefix, mw);
        let tail = flatten_children(cs.drop_first(), prefix, mw);
        assert forall|i: int|
            0 <= i < flatten_children(cs, prefix, mw).len() implies mw.is_prefix_of(
            (#[trigger] flatten_children(cs, prefix, mw)[i]).middleware,
        ) by {
            if i < head.len() {
                assert(flatten_children(cs, prefix, mw)[i] == head[i]);
            } else {
                assert(flatten_children(cs, prefix, mw)[i] == tail[i - head.len()]);
            }
        }
    }
}

/// A successful verb binding keeps the node's bindings unique, so a tree
/// grown through the fluent calls never reaches the flattener with a verb
/// bound twice at one node.
pub proof fn lemma_method_step_unique<E, M>(
    pre: RouteSegment<E, M>,
    verb: Method,
    endpoint: E,
    s: RouteSegment<E, M>,
)
    requires
        methods_unique(pre.methods@),
        RouteSegment::method_step(pre, verb, endpoint, Ok(s)),
    ensures
        methods_unique(s.methods@),
{
    assert(!has_method(pre.methods@, verb));
    assert forall|i: int, j: int| 0 <= i < j < s.methods@.len() implies (
    #[trigger] s.methods@[i]).0 != (#[trigger] s.methods@[j]).0 by {
        assert(s.methods@[i] == pre.methods@[i]);
        if j == pre.methods@.len() as int {
            assert(s.methods@[j] == (verb, endpoint));
        } else {
            assert(s.methods@[j] == pre.methods@[j]);
        }
    }
}

/// Flattening is a function of the tree value alone: two equal trees
/// yield identical descriptor sequences.
pub proof fn lemma_flatten_deterministic<E, M>(a: RouteSegment<E, M>, b: RouteSegment<E, M>)
    requires
        a == b,
    ensures
        flatten_seg(a, Seq::empty(), Seq::empty()) == flatten_seg(b, Seq::empty(), Seq::empty()),
{
}

} // verus!
