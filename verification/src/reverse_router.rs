use vstd::prelude::*;

verus! {

use vstd::string::StringExecFns;
use crate::error::RouteError;
use crate::path::{render_texts, render_texts_ne, Component, PathComp, SegmentPath};
use crate::util::str_eq;

/// An index from route names to path templates, filled while the route
/// tree is assembled and queried independently afterwards.
#[derive(Debug)]
pub struct ReverseRouter {
    pub entries: Vec<(String, SegmentPath)>,
}

pub open spec fn entries_model(v: Seq<(String, SegmentPath)>) -> Seq<(Seq<char>, Seq<PathComp>)> {
    v.map_values(|e: (String, SegmentPath)| (e.0@, e.1@))
}

/// Some entry carries the name.
pub open spec fn has_name(es: Seq<(Seq<char>, Seq<PathComp>)>, n: Seq<char>) -> bool {
    exists|i: int| 0 <= i < es.len() && (#[trigger] es[i]).0 == n
}

/// The template of the first entry with the name, searched from `i`.
pub open spec fn lookup(
    es: Seq<(Seq<char>, Seq<PathComp>)>,
    n: Seq<char>,
    i: int,
) -> Option<Seq<PathComp>>
    decreases es.len() - i,
{
    if i < 0 || i >= es.len() {
        None
    } else if es[i].0 == n {
        Some(es[i].1)
    } else {
        lookup(es, n, i + 1)
    }
}

pub open spec fn params_model(v: Seq<(String, String)>) -> Seq<(Seq<char>, Seq<char>)> {
    v.map_values(|p: (String, String)| (p.0@, p.1@))
}

/// The value of the first parameter with the key, searched from `i`.
pub open spec fn lookup_param(
    ps: Seq<(Seq<char>, Seq<char>)>,
    k: Seq<char>,
    i: int,
) -> Option<Seq<char>>
    decreases ps.len() - i,
{
    if i < 0 || i >= ps.len() {
        None
    } else if ps[i].0 == k {
        Some(ps[i].1)
    } else {
        lookup_param(ps, k, i + 1)
    }
}

/// What one template component substitutes to: a literal stands for
/// itself, a placeholder for the value under its name.
pub open spec fn comp_resolved(c: PathComp, ps: Seq<(Seq<char>, Seq<char>)>) -> Option<Seq<char>> {
    match c {
        PathComp::Lit(t) => Some(t),
        PathComp::Param(n) => lookup_param(ps, n, 0),
    }
}

/// The index of the first template component without a value, at or after
/// `i`, or the template's length when every component resolves.
pub open spec fn first_unresolved(
    tpl: Seq<PathComp>,
    ps: Seq<(Seq<char>, Seq<char>)>,
    i: int,
) -> int
    decreases tpl.len() - i,
{
    if i < 0 || i >= tpl.len() {
        tpl.len() as int
    } else if comp_resolved(tpl[i], ps) is None {
        i
    } else {
        first_unresolved(tpl, ps, i + 1)
    }
}

/// The substituted texts of a fully resolving template.
pub open spec fn resolved_texts(
    tpl: Seq<PathComp>,
    ps: Seq<(Seq<char>, Seq<char>)>,
) -> Seq<Seq<char>> {
    Seq::new(
        tpl.len(),
        |i: int|
            match comp_resolved(tpl[i], ps) {
                Some(t) => t,
                None => Seq::empty(),
            },
    )
}

/// The outcome of registering `es` into an index that already holds
/// `base`, entry by entry from the front: the final entries, or the first
/// name that repeats one already seen.
pub open spec fn register_all(
    base: Seq<(Seq<char>, Seq<PathComp>)>,
    es: Seq<(Seq<char>, Seq<PathComp>)>,
) -> Result<Seq<(Seq<char>, Seq<PathComp>)>, Seq<char>>
    decreases es.len(),
{
    if es.len() == 0 {
        Ok(base)
    } else if has_name(base, es[0].0) {
        Err(es[0].0)
    } else {
        register_all(base.push(es[0]), es.drop_first())
    }
}

/// No name occurs twice among the entries.
pub open spec fn names_distinct(es: Seq<(Seq<char>, Seq<PathComp>)>) -> bool {
    forall|i: int, j: int|
        0 <= i < j < es.len() ==> (#[trigger] es[i]).0 != (#[trigger] es[j]).0
}

/// No entry's name is already present in the base.
pub open spec fn names_disjoint(
    base: Seq<(Seq<char>, Seq<PathComp>)>,
    es: Seq<(Seq<char>, Seq<PathComp>)>,
) -> bool {
    forall|i: int| 0 <= i < es.len() ==> !has_name(base, (#[trigger] es[i]).0)
}

/// Registering a run of entries splits: the tail is registered into
/// whatever the head produced, and the first failure wins.
pub proof fn lemma_register_all_append(
    base: Seq<(Seq<char>, Seq<PathComp>)>,
    xs: Seq<(Seq<char>, Seq<PathComp>)>,
    ys: Seq<(Seq<char>, Seq<PathComp>)>,
)
    ensures
        register_all(base, xs + ys) == (match register_all(base, xs) {
            Ok(m) => register_all(m, ys),
            Err(k) => Err(k),
        }),
    decreases xs.len(),
{
    if xs.len() == 0 {
        assert(xs + ys =~= ys);
    } else {
        assert((xs + ys)[0] == xs[0]);
        if !has_name(base, xs[0].0) {
            lemma_register_all_append(base.push(xs[0]), xs.drop_first(), ys);
            assert((xs + ys).drop_first() =~= xs.drop_first() + ys);
        }
    }
}

proof fn lemma_has_name_push(
    base: Seq<(Seq<char>, Seq<PathComp>)>,
    e: (Seq<char>, Seq<PathComp>),
    n: Seq<char>,
)
    ensures
        has_name(base.push(e), n) <==> (has_name(base, n) || e.0 == n),
{
    if has_name(base.push(e), n) {
        let i = choose|i: int| 0 <= i < base.push(e).len() && (#[trigger] base.push(e)[i]).0 == n;
        if i < base.len() {
            assert(base[i] == base.push(e)[i]);
        } else {
            assert(base.push(e)[i] == e);
        }
    }
    if has_name(base, n) {
        let i = choose|i: int| 0 <= i < base.len() && (#[trigger] base[i]).0 == n;
        assert(base.push(e)[i] == base[i]);
        assert(has_name(base.push(e), n));
    }
    if e.0 == n {
        assert(base.push(e)[base.len() as int] == e);
        assert(has_name(base.push(e), n));
    }
}

/// Registration succeeds exactly when no entry repeats a name, neither
/// one of the base nor another entry's; it then appends the entries to
/// the base unchanged and in order.
pub proof fn lemma_register_all_ok(
    base: Seq<(Seq<char>, Seq<PathComp>)>,
    es: Seq<(Seq<char>, Seq<PathComp>)>,
)
    ensures
        register_all(base, es) is Ok <==> (names_distinct(es) && names_disjoint(base, es)),
        register_all(base, es) matches Ok(m) ==> m == base + es,
    decreases es.len(),
{
    if es.len() == 0 {
        assert(base + es =~= base);
    } else {
        let e0 = es[0];
        let rest = es.drop_first();
        if has_name(base, e0.0) {
            assert(!names_disjoint(base, es)) by {
                assert(es[0].0 == e0.0);
            }
        } else {
            lemma_register_all_ok(base.push(e0), rest);
            assert forall|n: Seq<char>| #[trigger]
                has_name(base.push(e0), n) <==> (has_name(base, n) || e0.0 == n) by {
                lemma_has_name_push(base, e0, n);
            }
            assert(rest.len() == es.len() - 1);
            assert(forall|k: int| 0 <= k < rest.len() ==> #[trigger] rest[k] == es[k + 1]);
            if names_distinct(es) && names_disjoint(base, es) {
                assert(names_distinct(rest)) by {
                    assert forall|i: int, j: int| 0 <= i < j < rest.len() implies (
                    #[trigger] rest[i]).0 != (#[trigger] rest[j]).0 by {
                        assert(rest[i] == es[i + 1]);
                        assert(rest[j] == es[j + 1]);
                    }
                }
                assert(names_disjoint(base.push(e0), rest)) by {
                    assert forall|i: int| 0 <= i < rest.len() implies !has_name(
                        base.push(e0),
                        (#[trigger] rest[i]).0,
                    ) by {
                        assert(rest[i] == es[i + 1]);
                        assert(!has_name(base, es[i + 1].0));
                        assert(es[0].0 != es[i + 1].0);
                    }
                }
                assert(register_all(base.push(e0), rest) is Ok);
                assert(base.push(e0) + rest =~= base + es);
            }
            if register_all(base, es) is Ok {
                assert(names_distinct(rest) && names_disjoint(base.push(e0), rest));
                assert(names_distinct(es)) by {
                    assert forall|i: int, j: int| 0 <= i < j < es.len() implies (
                    #[trigger] es[i]).0 != (#[trigger] es[j]).0 by {
                        if i == 0 {
                            assert(rest[j - 1] == es[j]);
                            assert(!has_name(base.push(e0), rest[j - 1].0));
                            assert(has_name(base.push(e0), e0.0));
                        } else {
                            assert(rest[i - 1] == es[i]);
                            assert(rest[j - 1] == es[j]);
                        }
                    }
                }
                assert(names_disjoint(base, es)) by {
                    assert forall|i: int| 0 <= i < es.len() implies !has_name(
                        base,
                        (#[trigger] es[i]).0,
                    ) by {
                        if i > 0 {
                            assert(rest[i - 1] == es[i]);
                            assert(!has_name(base.push(e0), rest[i - 1].0));
                        }
                    }
                }
                assert(base.push(e0) + rest =~= base + es);
            }
        }
    }
}

fn find_param<'a>(params: &'a Vec<(String, String)>, key: &str) -> (r: Option<&'a String>)
    ensures
        match r {
            Some(v) => lookup_param(params_model(params@), key@, 0) == Some(v@),
            None => lookup_param(params_model(params@), key@, 0) is None,
        },
{
    let mut i: usize = 0;
    while i < params.len()
        invariant
            i <= params@.len(),
            lookup_param(params_model(params@), key@, 0) == lookup_param(
                params_model(params@),
                key@,
                i as int,
            ),
        decreases params.len() - i,
    {
        if str_eq(params[i].0.as_str(), key) {
            proof {
                assert(params_model(params@)[i as int].0 == key@);
            }
            return Some(&params[i].1);
        }
        proof {
            assert(params_model(params@)[i as int].0 != key@);
        }
        i += 1;
    }
    None
}

impl ReverseRouter {
    pub open spec fn model(self) -> Seq<(Seq<char>, Seq<PathComp>)> {
        entries_model(self.entries@)
    }

    /// An empty index.
    pub fn new() -> (r: ReverseRouter)
        ensures
            r.model() =~= Seq::<(Seq<char>, Seq<PathComp>)>::empty(),
    {
        ReverseRouter { entries: Vec::new() }
    }

    fn find_entry(&self, name: &str) -> (r: Option<usize>)
        ensures
            match r {
                Some(i) => i < self.entries@.len() && self.model()[i as int].0 == name@ && lookup(
                    self.model(),
                    name@,
                    0,
                ) == Some(self.model()[i as int].1),
                None => lookup(self.model(), name@, 0) is None && !has_name(self.model(), name@),
            },
    {
        let mut i: usize = 0;
        while i < self.entries.len()
            invariant
                i <= self.entries@.len(),
                lookup(self.model(), name@, 0) == lookup(self.model(), name@, i as int),
                forall|k: int| 0 <= k < i ==> (#[trigger] self.model()[k]).0 != name@,
            decreases self.entries.len() - i,
        {
            if str_eq(self.entries[i].0.as_str(), name) {
                proof {
                    assert(self.model()[i as int].0 == name@);
                }
                return Some(i);
            }
            proof {
                assert(self.model()[i as int].0 != name@);
            }
            i += 1;
        }
        None
    }

    /// Registers `template` under `name`.  A name can be registered once:
    /// a second registration fails and leaves the index unchanged.
    pub fn register(&mut self, name: &str, template: SegmentPath) -> (r: Result<(), RouteError>)
        ensures
            match r {
                Ok(_) => !has_name(old(self).model(), name@) && final(self).model() == old(self).model().push((name@, template@)),
                Err(e) => has_name(old(self).model(), name@) && e.is_duplicate_name(name@) && *final(self) == *old(self),
            },
    {
        match self.find_entry(name) {
            Some(i) => {
                proof {
                    assert(has_name(self.model(), name@));
                }
                Err(RouteError::DuplicateName(name.to_owned()))
            },
            None => {
                let ghost pre = self.model();
                let ghost tm = template@;
                self.entries.push((name.to_owned(), template));
                proof {
                    assert(self.model().len() == pre.len() + 1);
                    assert(self.model() =~= pre.push((name@, tm)));
                }
                Ok(())
            },
        }
    }

    /// Resolves `name` to its template and substitutes `params` into it.
    /// An unregistered name and the first placeholder without a value are
    /// reported by name; parameters the template never mentions are
    /// ignored.
    #[verifier::loop_isolation(false)]
    pub fn url_for(&self, name: &str, params: &Vec<(String, String)>) -> (r: Result<
        String,
        RouteError,
    >)
        ensures
            match lookup(self.model(), name@, 0) {
                None => r matches Err(e) && e.is_unknown_route(name@),
                Some(tpl) => {
                    let ps = params_model(params@);
                    let fu = first_unresolved(tpl, ps, 0);
                    if fu == tpl.len() {
                        r matches Ok(u) && u@ == render_texts(resolved_texts(tpl, ps))
                    } else {
                        r matches Err(e) && e.is_missing_parameter(tpl[fu].text())
                    }
                },
            },
    {
        let idx = match self.find_entry(name) {
            None => {
                return Err(RouteError::UnknownRoute(name.to_owned()));
            },
            Some(i) => i,
        };
        let tpl: &SegmentPath = &self.entries[idx].1;
        let ghost tplv = tpl@;
        proof {
            assert(entries_model(self.entries@)[idx as int].1 == self.entries@[idx as int].1@);
            assert(lookup(self.model(), name@, 0) == Some(tplv));
        }
        let ghost ps = params_model(params@);
        let ghost texts = resolved_texts(tplv, ps);
        if tpl.components.len() == 0 {
            let r = String::from_str("/");
            proof {
                reveal_strlit("/");
                assert(first_unresolved(tplv, ps, 0) == 0);
                assert(texts =~= Seq::<Seq<char>>::empty());
                assert(r@ =~= render_texts(texts));
            }
            return Ok(r);
        }
        let mut out = String::new();
        let mut i: usize = 0;
        proof {
            assert(texts.skip(0) =~= texts);
            assert(out@ + render_texts_ne(texts) =~= render_texts_ne(texts));
        }
        while i < tpl.components.len()
            invariant
                i <= tpl.components.len(),
                tplv == tpl@,
                tplv.len() == tpl.components@.len(),
                ps == params_model(params@),
                texts == resolved_texts(tplv, ps),
                first_unresolved(tplv, ps, 0) == first_unresolved(tplv, ps, i as int),
                out@ + render_texts_ne(texts.skip(i as int)) == render_texts_ne(texts),
            decreases tpl.components.len() - i,
        {
            proof {
                reveal_strlit("/");
                assert(tplv[i as int] == tpl.components@[i as int]@);
            }
            match &tpl.components[i] {
                Component::Literal(t) => {
                    out.append("/");
                    out.append(t.as_str());
                    proof {
                        assert(comp_resolved(tplv[i as int], ps) == Some(t@));
                        assert(texts[i as int] == t@);
                    }
                },
                Component::Param(n) => {
                    match find_param(params, n.as_str()) {
                        Some(v) => {
                            out.append("/");
                            out.append(v.as_str());
                            proof {
                                assert(comp_resolved(tplv[i as int], ps) == Some(v@));
                                assert(texts[i as int] == v@);
                            }
                        },
                        None => {
                            let missing = n.clone();
                            proof {
                                assert(tplv[i as int] == PathComp::Param(n@));
                                assert(comp_resolved(tplv[i as int], ps) is None);
                                assert(first_unresolved(tplv, ps, i as int) == i);
                                assert(first_unresolved(tplv, ps, 0) == i as int);
                                assert(tplv[i as int].text() == n@);
                                assert(missing@ == n@);
                            }
                            return Err(RouteError::MissingParameter(missing));
                        },
                    }
                },
            }
            proof {
                let tail = texts.skip(i as int);
                assert(tail.len() > 0);
                assert(tail[0] == texts[i as int]);
                assert(tail.drop_first() =~= texts.skip(i + 1 as int));
                assert(render_texts_ne(tail) == seq!['/'] + tail[0] + render_texts_ne(
                    tail.drop_first(),
                ));
                assert(out@ + render_texts_ne(texts.skip(i + 1 as int)) =~= render_texts_ne(
                    texts,
                ));
            }
            i += 1;
        }
        proof {
            assert(texts.skip(tplv.len() as int) =~= Seq::<Seq<char>>::empty());
            assert(out@ + Seq::<char>::empty() =~= out@);
            assert(texts.len() > 0);
        }
        Ok(out)
    }
}

} // verus!
