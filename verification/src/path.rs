use vstd::prelude::*;

verus! {

use vstd::string::StrSliceExecFns;
use vstd::string::StringExecFns;
use crate::error::RouteError;

/// The mathematical form of one path component: either a literal segment
/// or a named parameter placeholder (written with a leading `:` marker).
pub enum PathComp {
    Lit(Seq<char>),
    Param(Seq<char>),
}

impl PathComp {
    /// The raw text of the component: the literal itself, or the
    /// placeholder's name without its marker.
    pub open spec fn text(self) -> Seq<char> {
        match self {
            PathComp::Lit(t) => t,
            PathComp::Param(n) => n,
        }
    }

    /// How the component reads inside a canonical template path.
    pub open spec fn rendered(self) -> Seq<char> {
        match self {
            PathComp::Lit(t) => t,
            PathComp::Param(n) => seq![':'] + n,
        }
    }

    /// A component is well formed when its text is non-empty and holds no
    /// separator.
    pub open spec fn wf(self) -> bool {
        &&& self.text().len() > 0
        &&& forall|k: int| 0 <= k < self.text().len() ==> self.text()[k] != '/'
    }
}

/// Every component of the sequence is well formed.
pub open spec fn path_wf(s: Seq<PathComp>) -> bool {
    forall|i: int| 0 <= i < s.len() ==> (#[trigger] s[i]).wf()
}

/// The index of the first separator at or after `i`, or the length of `s`
/// when none follows.
pub open spec fn scan_sep(s: Seq<char>, i: int) -> int
    decreases s.len() - i,
{
    if i < 0 || i >= s.len() {
        s.len() as int
    } else if s[i] == '/' {
        i
    } else {
        scan_sep(s, i + 1)
    }
}

pub proof fn lemma_scan_sep(s: Seq<char>, i: int)
    requires
        0 <= i <= s.len(),
    ensures
        i <= scan_sep(s, i) <= s.len(),
        forall|k: int| i <= k < scan_sep(s, i) ==> s[k] != '/',
        scan_sep(s, i) < s.len() ==> s[scan_sep(s, i)] == '/',
    decreases s.len() - i,
{
    if i < s.len() && s[i] != '/' {
        lemma_scan_sep(s, i + 1);
    }
}

/// The maximal runs of non-separator characters of `s` at or after `i`,
/// in order.  Empty runs between consecutive separators are dropped.
pub open spec fn split_from(s: Seq<char>, i: int) -> Seq<Seq<char>>
    decreases s.len() - i,
    when 0 <= i
    via split_from_decreases
{
    if i >= s.len() {
        Seq::empty()
    } else if s[i] == '/' {
        split_from(s, i + 1)
    } else {
        seq![s.subrange(i, scan_sep(s, i))] + split_from(s, scan_sep(s, i))
    }
}

#[via_fn]
proof fn split_from_decreases(s: Seq<char>, i: int) {
    if 0 <= i < s.len() && s[i] != '/' {
        lemma_scan_sep(s, i + 1);
    }
}

/// The non-empty components of a fragment string, as raw texts.
pub open spec fn fragment_texts(s: Seq<char>) -> Seq<Seq<char>> {
    split_from(s, 0)
}

/// The component that a raw text stands for: a leading marker makes a
/// parameter placeholder, anything else a literal.
pub open spec fn text_comp(t: Seq<char>) -> PathComp {
    if t.len() >= 1 && t[0] == ':' {
        PathComp::Param(t.subrange(1, t.len() as int))
    } else {
        PathComp::Lit(t)
    }
}

/// A raw text is acceptable unless it is a bare marker, which would name
/// an empty parameter.
pub open spec fn text_ok(t: Seq<char>) -> bool {
    !(t.len() == 1 && t[0] == ':')
}

pub open spec fn texts_ok(ts: Seq<Seq<char>>) -> bool {
    forall|j: int| 0 <= j < ts.len() ==> text_ok(#[trigger] ts[j])
}

pub open spec fn texts_model(ts: Seq<Seq<char>>) -> Seq<PathComp> {
    ts.map_values(|t: Seq<char>| text_comp(t))
}

/// Whether a whole fragment string parses without error.
pub open spec fn fragment_ok(s: Seq<char>) -> bool {
    texts_ok(fragment_texts(s))
}

/// The components that a fragment string parses to.
pub open spec fn fragment_model(s: Seq<char>) -> Seq<PathComp> {
    texts_model(fragment_texts(s))
}

/// One executable path component.  A `Param` holds the placeholder's name
/// without its marker.
#[derive(Debug, PartialEq, Eq)]
pub enum Component {
    Literal(String),
    Param(String),
}

impl View for Component {
    type V = PathComp;

    open spec fn view(&self) -> PathComp {
        match self {
            Component::Literal(t) => PathComp::Lit(t@),
            Component::Param(n) => PathComp::Param(n@),
        }
    }
}

impl Clone for Component {
    fn clone(&self) -> (r: Self)
        ensures
            r == *self,
    {
        match self {
            Component::Literal(t) => Component::Literal(t.clone()),
            Component::Param(n) => Component::Param(n.clone()),
        }
    }
}

pub open spec fn comps_model(v: Seq<Component>) -> Seq<PathComp> {
    v.map_values(|c: Component| c@)
}

/// A parsed, normalized path fragment: an ordered run of components with
/// no empty component and no separator inside a component.
#[derive(Debug, PartialEq, Eq)]
pub struct SegmentPath {
    pub components: Vec<Component>,
}

impl View for SegmentPath {
    type V = Seq<PathComp>;

    open spec fn view(&self) -> Seq<PathComp> {
        comps_model(self.components@)
    }
}

impl Clone for SegmentPath {
    fn clone(&self) -> (r: Self)
        ensures
            r@ == self@,
            r.components@ == self.components@,
    {
        let mut components: Vec<Component> = Vec::new();
        let mut i: usize = 0;
        while i < self.components.len()
            invariant
                i <= self.components.len(),
                components@ =~= self.components@.take(i as int),
            decreases self.components.len() - i,
        {
            components.push(self.components[i].clone());
            proof {
                assert(components@ =~= self.components@.take(i + 1 as int));
            }
            i += 1;
        }
        proof {
            assert(self.components@.take(self.components@.len() as int) =~= self.components@);
        }
        SegmentPath { components }
    }
}

/// How a sequence of resolved texts reads as an absolute path: always a
/// leading separator, one separator between components, and a bare
/// separator for the empty sequence.
pub open spec fn render_texts(ts: Seq<Seq<char>>) -> Seq<char> {
    if ts.len() == 0 {
        seq!['/']
    } else {
        render_texts_ne(ts)
    }
}

pub open spec fn render_texts_ne(ts: Seq<Seq<char>>) -> Seq<char>
    decreases ts.len(),
{
    if ts.len() == 0 {
        Seq::empty()
    } else {
        seq!['/'] + ts[0] + render_texts_ne(ts.drop_first())
    }
}

/// The canonical rendering of a component sequence as a template path.
pub open spec fn render(s: Seq<PathComp>) -> Seq<char> {
    render_texts(s.map_values(|c: PathComp| c.rendered()))
}

impl SegmentPath {
    /// The empty fragment: the root path.
    pub fn root() -> (r: SegmentPath)
        ensures
            r@ =~= Seq::<PathComp>::empty(),
    {
        SegmentPath { components: Vec::new() }
    }

    /// Concatenates two fragments; normalization is inherited from the
    /// components, so exactly one separator stands between them when
    /// rendered.
    pub fn join(&self, other: &SegmentPath) -> (r: SegmentPath)
        ensures
            r@ == self@ + other@,
    {
        let left = self.clone();
        let mut components = left.components;
        let mut i: usize = 0;
        proof {
            assert(components@ =~= self.components@ + other.components@.take(0));
        }
        while i < other.components.len()
            invariant
                i <= other.components.len(),
                components@ =~= self.components@ + other.components@.take(i as int),
            decreases other.components.len() - i,
        {
            components.push(other.components[i].clone());
            proof {
                assert(components@ =~= self.components@ + other.components@.take(i + 1 as int));
            }
            i += 1;
        }
        proof {
            assert(other.components@.take(other.components@.len() as int) =~= other.components@);
            assert(comps_model(self.components@ + other.components@) =~= comps_model(
                self.components@,
            ) + comps_model(other.components@));
        }
        SegmentPath { components }
    }

    /// Renders the fragment as a canonical absolute path, beginning with
    /// the separator; the empty fragment reads as the bare separator.
    pub fn to_string(&self) -> (r: String)
        ensures
            r@ == render(self@),
    {
        let ghost rendered = self@.map_values(|c: PathComp| c.rendered());
        if self.components.len() == 0 {
            let r = String::from_str("/");
            proof {
                reveal_strlit("/");
                assert(r@ =~= render(self@));
            }
            return r;
        }
        let mut out = String::new();
        let mut i: usize = 0;
        proof {
            assert(rendered.skip(0) =~= rendered);
            assert(out@ + render_texts_ne(rendered) =~= render_texts_ne(rendered));
        }
        while i < self.components.len()
            invariant
                i <= self.components.len(),
                self.components.len() == rendered.len(),
                rendered == self@.map_values(|c: PathComp| c.rendered()),
                self@ == comps_model(self.components@),
                out@ + render_texts_ne(rendered.skip(i as int)) == render_texts_ne(rendered),
            decreases self.components.len() - i,
        {
            proof {
                reveal_strlit("/");
                reveal_strlit(":");
                assert(self@[i as int] == self.components@[i as int]@);
            }
            out.append("/");
            match &self.components[i] {
                Component::Literal(t) => {
                    out.append(t.as_str());
                    proof {
                        assert(rendered[i as int] == t@);
                    }
                },
                Component::Param(n) => {
                    out.append(":");
                    out.append(n.as_str());
                    proof {
                        assert(rendered[i as int] =~= seq![':'] + n@);
                    }
                },
            }
            proof {
                let tail = rendered.skip(i as int);
                assert(tail.len() > 0);
                assert(tail[0] == rendered[i as int]);
                assert(tail.drop_first() =~= rendered.skip(i + 1 as int));
                assert(render_texts_ne(tail) == seq!['/'] + tail[0] + render_texts_ne(
                    tail.drop_first(),
                ));
                assert(out@ + render_texts_ne(rendered.skip(i + 1 as int)) =~= render_texts_ne(
                    rendered,
                ));
            }
            i += 1;
        }
        proof {
            assert(rendered.skip(self.components@.len() as int) =~= Seq::<Seq<char>>::empty());
            assert(out@ + Seq::<char>::empty() =~= out@);
            assert(rendered.len() > 0);
        }
        out
    }
}

fn comp_eq(a: &Component, b: &Component) -> (r: bool)
    ensures
        r == (a@ == b@),
{
    match (a, b) {
        (Component::Literal(x), Component::Literal(y)) => crate::util::str_eq(
            x.as_str(),
            y.as_str(),
        ),
        (Component::Param(x), Component::Param(y)) => crate::util::str_eq(x.as_str(), y.as_str()),
        _ => false,
    }
}

/// Compares two fragments component by component.
pub fn path_eq(a: &SegmentPath, b: &SegmentPath) -> (r: bool)
    ensures
        r == (a@ == b@),
{
    if a.components.len() != b.components.len() {
        proof {
            assert(a@.len() != b@.len());
        }
        return false;
    }
    let mut i: usize = 0;
    while i < a.components.len()
        invariant
            i <= a.components.len(),
            a.components@.len() == b.components@.len(),
            forall|k: int| 0 <= k < i ==> a@[k] == b@[k],
        decreases a.components.len() - i,
    {
        if !comp_eq(&a.components[i], &b.components[i]) {
            proof {
                assert(a@[i as int] != b@[i as int]);
            }
            return false;
        }
        i += 1;
    }
    proof {
        assert(a@ =~= b@);
    }
    true
}

/// Index of the first separator at or after `i` in `s`, computed.
fn scan(s: &str, i: usize) -> (j: usize)
    requires
        i <= s@.len(),
    ensures
        j == scan_sep(s@, i as int),
        i <= j <= s@.len(),
    decreases s@.len() - i,
{
    let n = s.unicode_len();
    if i == n {
        i
    } else if s.get_char(i) == '/' {
        i
    } else {
        scan(s, i + 1)
    }
}

/// Classifies one raw component text.
fn classify(text: &str) -> (r: Result<Component, RouteError>)
    requires
        text@.len() > 0,
    ensures
        match r {
            Ok(c) => text_ok(text@) && c@ == text_comp(text@),
            Err(e) => !text_ok(text@) && e == RouteError::EmptyParameter,
        },
{
    let n = text.unicode_len();
    if text.get_char(0) == ':' {
        if n == 1 {
            Err(RouteError::EmptyParameter)
        } else {
            let name = text.substring_char(1, n);
            Ok(Component::Param(name.to_owned()))
        }
    } else {
        Ok(Component::Literal(text.to_owned()))
    }
}

fn parse_from(s: &str, i: usize) -> (r: Result<Vec<Component>, RouteError>)
    requires
        i <= s@.len(),
    ensures
        match r {
            Ok(v) => texts_ok(split_from(s@, i as int)) && comps_model(v@) == texts_model(
                split_from(s@, i as int),
            ),
            Err(e) => !texts_ok(split_from(s@, i as int)) && e == RouteError::EmptyParameter,
        },
    decreases s@.len() - i,
{
    let n = s.unicode_len();
    if i == n {
        let r: Vec<Component> = Vec::new();
        proof {
            assert(comps_model(r@) =~= texts_model(split_from(s@, i as int)));
        }
        Ok(r)
    } else if s.get_char(i) == '/' {
        parse_from(s, i + 1)
    } else {
        let j = scan(s, i);
        proof {
            lemma_scan_sep(s@, i as int);
            lemma_scan_sep(s@, i + 1 as int);
            assert(scan_sep(s@, i as int) == scan_sep(s@, i + 1 as int));
            assert(j > i);
        }
        let text = s.substring_char(i, j);
        let ghost whole = split_from(s@, i as int);
        proof {
            assert(whole == seq![s@.subrange(i as int, j as int)] + split_from(s@, j as int));
            assert(whole[0] == text@);
            assert(whole.drop_first() =~= split_from(s@, j as int));
        }
        match classify(text) {
            Err(e) => {
                proof {
                    assert(!text_ok(whole[0]));
                }
                Err(e)
            },
            Ok(c) => {
                match parse_from(s, j) {
                    Err(e) => {
                        proof {
                            let rest = split_from(s@, j as int);
                            assert(exists|k: int| 0 <= k < rest.len() && !text_ok(#[trigger] rest[k]))
                                by {
                                if forall|k: int| 0 <= k < rest.len() ==> text_ok(
                                    #[trigger] rest[k],
                                ) {
                                    assert(texts_ok(rest));
                                }
                            }
                            let k = choose|k: int| 0 <= k < rest.len() && !text_ok(
                                #[trigger] rest[k],
                            );
                            assert(whole.len() == 1 + rest.len());
                            assert(whole[k + 1] == rest[k]);
                            assert(!texts_ok(whole));
                        }
                        Err(e)
                    },
                    Ok(mut v) => {
                        let ghost vpre = v@;
                        let ghost rest = split_from(s@, j as int);
                        v.insert(0, c);
                        proof {
                            assert(v@ =~= seq![c] + vpre);
                            assert(comps_model(vpre).len() == vpre.len());
                            assert(texts_model(rest).len() == rest.len());
                            assert(vpre.len() == rest.len());
                            assert(whole.len() == 1 + rest.len());
                            assert forall|k: int| 0 <= k < v@.len() implies comps_model(v@)[k]
                                == texts_model(whole)[k] by {
                                if k == 0 {
                                    assert(comps_model(v@)[0] == c@);
                                    assert(texts_model(whole)[0] == text_comp(whole[0]));
                                } else {
                                    assert(comps_model(v@)[k] == v@[k]@);
                                    assert(v@[k] == vpre[k - 1]);
                                    assert(comps_model(vpre)[k - 1] == vpre[k - 1]@);
                                    assert(texts_model(rest)[k - 1] == text_comp(rest[k - 1]));
                                    assert(whole[k] == rest[k - 1]);
                                    assert(texts_model(whole)[k] == text_comp(whole[k]));
                                }
                            }
                            assert(comps_model(v@) =~= texts_model(whole));
                        }
                        Ok(v)
                    },
                }
            },
        }
    }
}

/// Parses a fragment string into its normalized components: separators
/// split it, empty components are dropped, and a leading marker makes a
/// parameter placeholder.  The only error is a bare marker, which would
/// name an empty parameter.
pub fn parse_fragment(s: &str) -> (r: Result<SegmentPath, RouteError>)
    ensures
        match r {
            Ok(p) => fragment_ok(s@) && p@ == fragment_model(s@) && path_wf(p@)
                && path_canonical(p@),
            Err(e) => !fragment_ok(s@) && e == RouteError::EmptyParameter,
        },
{
    match parse_from(s, 0) {
        Ok(components) => {
            proof {
                lemma_split_from_wf(s@, 0);
                let m = fragment_model(s@);
                let ts = fragment_texts(s@);
                assert forall|k: int| 0 <= k < m.len() implies comp_canonical(#[trigger] m[k]) by {
                    let t = ts[k];
                    assert(t.len() > 0);
                    assert(text_ok(t));
                    assert(m[k] == text_comp(t));
                    assert(forall|k2: int| 0 <= k2 < t.len() ==> #[trigger] t[k2] != '/');
                    if t.len() >= 1 && t[0] == ':' {
                        assert(t.len() >= 2);
                        let n = t.subrange(1, t.len() as int);
                        assert(m[k] == PathComp::Param(n));
                        assert forall|k2: int| 0 <= k2 < n.len() implies #[trigger] n[k2] != '/' by {
                            assert(n[k2] == t[k2 + 1]);
                        }
                    }
                }
            }
            Ok(SegmentPath { components })
        },
        Err(e) => Err(e),
    }
}

proof fn lemma_scan_sep_push(s: Seq<char>, i: int)
    requires
        0 <= i <= s.len(),
    ensures
        scan_sep(s.push('/'), i) == scan_sep(s, i),
    decreases s.len() - i,
{
    let s2 = s.push('/');
    if i >= s.len() {
        assert(s2[s.len() as int] == '/');
    } else {
        assert(s2[i] == s[i]);
        if s[i] != '/' {
            lemma_scan_sep_push(s, i + 1);
        }
    }
}

proof fn lemma_split_trailing_sep(s: Seq<char>, i: int)
    requires
        0 <= i <= s.len(),
    ensures
        split_from(s.push('/'), i) == split_from(s, i),
    decreases s.len() - i,
{
    let s2 = s.push('/');
    if i >= s.len() {
        assert(s2[s.len() as int] == '/');
        assert(split_from(s2, i) == split_from(s2, i + 1));
        assert(split_from(s2, i + 1) =~= Seq::<Seq<char>>::empty());
        assert(split_from(s, i) =~= Seq::<Seq<char>>::empty());
    } else if s[i] == '/' {
        assert(s2[i] == s[i]);
        lemma_split_trailing_sep(s, i + 1);
    } else {
        assert(s2[i] == s[i]);
        lemma_scan_sep_push(s, i);
        lemma_scan_sep(s, i);
        lemma_scan_sep(s, i + 1);
        lemma_split_trailing_sep(s, scan_sep(s, i));
        assert(s2.subrange(i, scan_sep(s2, i)) =~= s.subrange(i, scan_sep(s, i)));
    }
}

/// A trailing separator does not change a fragment: `"a/"` parses to the
/// same components as `"a"`.
pub proof fn lemma_fragment_trailing_sep(s: Seq<char>)
    ensures
        fragment_texts(s.push('/')) == fragment_texts(s),
        fragment_model(s.push('/')) == fragment_model(s),
{
    lemma_split_trailing_sep(s, 0);
}

proof fn lemma_scan_sep_offset(u: Seq<char>, v: Seq<char>, i: int)
    requires
        0 <= i <= v.len(),
    ensures
        scan_sep(u + v, u.len() + i) == u.len() + scan_sep(v, i),
    decreases v.len() - i,
{
    let w = u + v;
    if i < v.len() {
        assert(w[u.len() + i] == v[i]);
        if v[i] != '/' {
            lemma_scan_sep_offset(u, v, i + 1);
        }
    }
}

/// Splitting never looks back: past a prefix, only the suffix matters.
proof fn lemma_split_offset(u: Seq<char>, v: Seq<char>, i: int)
    requires
        0 <= i <= v.len(),
    ensures
        split_from(u + v, u.len() + i) == split_from(v, i),
    decreases v.len() - i,
{
    let w = u + v;
    if i >= v.len() {
        assert(split_from(w, u.len() + i) =~= Seq::<Seq<char>>::empty());
        assert(split_from(v, i) =~= Seq::<Seq<char>>::empty());
    } else if v[i] == '/' {
        assert(w[u.len() + i] == v[i]);
        lemma_split_offset(u, v, i + 1);
    } else {
        assert(w[u.len() + i] == v[i]);
        lemma_scan_sep_offset(u, v, i);
        lemma_scan_sep(v, i);
        lemma_scan_sep(v, i + 1);
        lemma_split_offset(u, v, scan_sep(v, i));
        assert(w.subrange(u.len() + i, u.len() + scan_sep(v, i)) =~= v.subrange(
            i,
            scan_sep(v, i),
        ));
    }
}

/// A leading separator does not change a fragment: `"/b"` parses to the
/// same components as `"b"`.
pub proof fn lemma_fragment_leading_sep(s: Seq<char>)
    ensures
        fragment_texts(seq!['/'] + s) == fragment_texts(s),
        fragment_model(seq!['/'] + s) == fragment_model(s),
{
    let s2 = seq!['/'] + s;
    assert(s2[0] == '/');
    assert(split_from(s2, 0) == split_from(s2, 1));
    lemma_split_offset(seq!['/'], s, 0);
}

proof fn lemma_scan_sep_exact(w: Seq<char>, i: int, m: int)
    requires
        0 <= i <= m <= w.len(),
        forall|k: int| i <= k < m ==> w[k] != '/',
        m < w.len() ==> w[m] == '/',
    ensures
        scan_sep(w, i) == m,
{
    lemma_scan_sep(w, i);
}

proof fn lemma_split_head(w: Seq<char>, i: int, m: int)
    requires
        0 <= i < m <= w.len(),
        forall|k: int| i <= k < m ==> w[k] != '/',
        m < w.len() ==> w[m] == '/',
    ensures
        split_from(w, i) == seq![w.subrange(i, m)] + split_from(w, m),
{
    lemma_scan_sep_exact(w, i, m);
}

/// A component that parsing itself could have produced: well formed, and
/// a literal never begins with the parameter marker.
pub open spec fn comp_canonical(c: PathComp) -> bool {
    &&& c.wf()
    &&& (c matches PathComp::Lit(t) ==> t[0] != ':')
}

pub open spec fn path_canonical(s: Seq<PathComp>) -> bool {
    forall|i: int| 0 <= i < s.len() ==> comp_canonical(#[trigger] s[i])
}

proof fn lemma_render_texts_parse(ts: Seq<Seq<char>>)
    requires
        forall|j: int| 0 <= j < ts.len() ==> (#[trigger] ts[j]).len() > 0,
        forall|j: int, k: int|
            #![trigger ts[j][k]]
            0 <= j < ts.len() && 0 <= k < ts[j].len() ==> ts[j][k] != '/',
    ensures
        split_from(render_texts_ne(ts), 0) == ts,
    decreases ts.len(),
{
    if ts.len() == 0 {
        assert(split_from(render_texts_ne(ts), 0) =~= ts);
    } else {
        let rest = ts.drop_first();
        assert(forall|j: int| 0 <= j < rest.len() ==> #[trigger] rest[j] == ts[j + 1]);
        lemma_render_texts_parse(rest);
        let r0 = ts[0];
        let w = render_texts_ne(ts);
        assert(w == seq!['/'] + r0 + render_texts_ne(rest));
        assert(r0.len() > 0);
        let m: int = 1 + r0.len() as int;
        assert(w[0] == '/');
        assert forall|k: int| 1 <= k < m implies w[k] != '/' by {
            assert(w[k] == r0[k - 1]);
        }
        if render_texts_ne(rest).len() == 0 {
            assert(m == w.len());
        } else {
            assert(rest.len() > 0);
            assert(render_texts_ne(rest)[0] == '/');
            assert(w[m] == render_texts_ne(rest)[0]);
        }
        assert(split_from(w, 0) == split_from(w, 1));
        lemma_split_head(w, 1, m);
        assert(w.subrange(1, m) =~= r0);
        assert(w =~= (seq!['/'] + r0) + render_texts_ne(rest));
        lemma_split_offset(seq!['/'] + r0, render_texts_ne(rest), 0);
        assert(split_from(w, m) == split_from(render_texts_ne(rest), 0));
        assert(split_from(w, 0) =~= ts);
    }
}

/// Normalization is idempotent: rendering a canonical fragment and
/// parsing the rendered path back yields the same components.
pub proof fn lemma_render_parse_roundtrip(s: Seq<PathComp>)
    requires
        path_canonical(s),
    ensures
        fragment_ok(render(s)),
        fragment_model(render(s)) == s,
{
    if s.len() == 0 {
        let w = render(s);
        assert(w == seq!['/']);
        assert(w[0] == '/');
        assert(split_from(w, 0) == split_from(w, 1));
        assert(split_from(w, 1) =~= Seq::<Seq<char>>::empty());
        assert(fragment_model(w) =~= s);
    } else {
        let texts = s.map_values(|c: PathComp| c.rendered());
        assert(texts.len() == s.len());
        assert(render(s) == render_texts_ne(texts));
        assert forall|j: int| 0 <= j < texts.len() implies (#[trigger] texts[j]).len() > 0 by {
            assert(texts[j] == s[j].rendered());
            assert(comp_canonical(s[j]));
        }
        assert forall|j: int, k: int|
            #![trigger texts[j][k]]
            0 <= j < texts.len() && 0 <= k < texts[j].len() implies texts[j][k] != '/' by {
            assert(texts[j] == s[j].rendered());
            assert(comp_canonical(s[j]));
            match s[j] {
                PathComp::Lit(t) => {
                    assert(texts[j][k] == t[k]);
                },
                PathComp::Param(n) => {
                    if k > 0 {
                        assert(texts[j][k] == n[k - 1]);
                    }
                },
            }
        }
        lemma_render_texts_parse(texts);
        let ts = fragment_texts(render(s));
        assert(ts == texts);
        assert forall|k: int| 0 <= k < ts.len() implies text_ok(#[trigger] ts[k]) && text_comp(
            ts[k],
        ) == s[k] by {
            assert(ts[k] == s[k].rendered());
            assert(comp_canonical(s[k]));
            match s[k] {
                PathComp::Lit(t) => {
                    assert(ts[k] == t);
                },
                PathComp::Param(n) => {
                    assert(ts[k] == seq![':'] + n);
                    assert(ts[k][0] == ':');
                    assert(ts[k].len() == 1 + n.len());
                    assert(ts[k].subrange(1, ts[k].len() as int) =~= n);
                },
            }
        }
        assert(fragment_model(render(s)) =~= s);
    }
}

/// Joining fragments is associative: the components concatenate, so the
/// grouping of joins does not matter.
pub proof fn lemma_join_assoc(a: Seq<PathComp>, b: Seq<PathComp>, c: Seq<PathComp>)
    ensures
        (a + b) + c == a + (b + c),
{
    assert((a + b) + c =~= a + (b + c));
}

/// Every raw text that splitting yields is non-empty and free of the
/// separator.
pub proof fn lemma_split_from_wf(s: Seq<char>, i: int)
    requires
        0 <= i <= s.len(),
    ensures
        forall|j: int|
            0 <= j < split_from(s, i).len() ==> (#[trigger] split_from(s, i)[j]).len() > 0,
        forall|j: int, k: int|
            #![trigger split_from(s, i)[j][k]]
            0 <= j < split_from(s, i).len() && 0 <= k < split_from(s, i)[j].len() ==> split_from(
                s,
                i,
            )[j][k] != '/',
    decreases s.len() - i,
{
    if i >= s.len() {
        assert(split_from(s, i) =~= Seq::<Seq<char>>::empty());
    } else if s[i] == '/' {
        lemma_split_from_wf(s, i + 1);
        assert(split_from(s, i) == split_from(s, i + 1));
    } else {
        lemma_scan_sep(s, i);
        lemma_scan_sep(s, i + 1);
        lemma_split_from_wf(s, scan_sep(s, i));
        let whole = split_from(s, i);
        let rest = split_from(s, scan_sep(s, i));
        let head = s.subrange(i, scan_sep(s, i));
        assert(whole == seq![head] + rest);
        assert(whole.len() == 1 + rest.len());
        assert(head.len() > 0);
        assert forall|j: int| 0 <= j < whole.len() implies (#[trigger] whole[j]).len() > 0 by {
            if j == 0 {
                assert(whole[0] == head);
            } else {
                assert(whole[j] == rest[j - 1]);
            }
        }
        assert forall|j: int, k: int|
            #![trigger whole[j][k]]
            0 <= j < whole.len() && 0 <= k < whole[j].len() implies whole[j][k] != '/' by {
            if j == 0 {
                assert(whole[0] == head);
                assert(head[k] == s[i + k]);
            } else {
                assert(whole[j] == rest[j - 1]);
            }
        }
    }
}

} // verus!
