//! The resource identifier grammar: `namespace:segment/segment/.../leaf`.
//! Formatting and parsing are each proved against spec-level split and join
//! functions, and parsing a formatted identifier is proved to give back the
//! identifier: the grammar round-trips.

use vstd::prelude::*;

use crate::error::ArpError;

verus! {

/// The separator between the namespace and the path.
pub const UID_NAMESPACE_SEPARATOR: char = ':';

/// The separator between path segments.
pub const UID_PATH_SEPARATOR: char = '/';

/// The position of the first occurrence of `c`, or -1 if there is none.
pub open spec fn spec_find(s: Seq<char>, c: char) -> int
    decreases s.len(),
{
    if s.len() == 0 {
        -1
    } else if s[0] == c {
        0
    } else if spec_find(s.drop_first(), c) == -1 {
        -1
    } else {
        1 + spec_find(s.drop_first(), c)
    }
}

/// A sequence without `c` has no first occurrence of it.
pub proof fn lemma_find_none(s: Seq<char>, c: char)
    requires
        forall|k: int| 0 <= k < s.len() ==> s[k] != c,
    ensures
        spec_find(s, c) == -1,
    decreases s.len(),
{
    if s.len() > 0 {
        assert(forall|k: int|
            0 <= k < s.drop_first().len() ==> #[trigger] s.drop_first()[k] == s[k + 1]);
        lemma_find_none(s.drop_first(), c);
    }
}

/// If `c` first occurs at `i`, that is where it is found.
pub proof fn lemma_find_at(s: Seq<char>, c: char, i: int)
    requires
        0 <= i < s.len(),
        s[i] == c,
        forall|k: int| 0 <= k < i ==> s[k] != c,
    ensures
        spec_find(s, c) == i,
    decreases s.len(),
{
    if i > 0 {
        assert(forall|k: int|
            0 <= k < s.drop_first().len() ==> #[trigger] s.drop_first()[k] == s[k + 1]);
        lemma_find_at(s.drop_first(), c, i - 1);
    }
}

/// Where `c` is found is either nowhere, or a position holding `c`.
pub proof fn lemma_find_bounds(s: Seq<char>, c: char)
    ensures
        spec_find(s, c) == -1 || (0 <= spec_find(s, c) < s.len() && s[spec_find(s, c)] == c),
    decreases s.len(),
{
    if s.len() > 0 && s[0] != c {
        lemma_find_bounds(s.drop_first(), c);
    }
}

/// The pieces of `s` between occurrences of `sep`; one piece more than there
/// are separators, so an empty sequence yields one empty piece.
pub open spec fn spec_split(s: Seq<char>, sep: char) -> Seq<Seq<char>>
    decreases s.len(),
    via spec_split_decreases
{
    let i = spec_find(s, sep);
    if i == -1 {
        seq![s]
    } else {
        seq![s.subrange(0, i)] + spec_split(s.subrange(i + 1, s.len() as int), sep)
    }
}

#[via_fn]
proof fn spec_split_decreases(s: Seq<char>, sep: char) {
    lemma_find_bounds(s, sep);
}

/// The segments joined by the path separator.
pub open spec fn spec_join(comps: Seq<Seq<char>>) -> Seq<char>
    decreases comps.len(),
{
    if comps.len() == 0 {
        Seq::empty()
    } else if comps.len() == 1 {
        comps[0]
    } else {
        comps[0] + seq![UID_PATH_SEPARATOR] + spec_join(comps.drop_first())
    }
}

/// Appending one more segment appends a separator and the segment.
pub proof fn lemma_join_snoc(comps: Seq<Seq<char>>, c: Seq<char>)
    requires
        comps.len() >= 1,
    ensures
        spec_join(comps.push(c)) == spec_join(comps) + seq![UID_PATH_SEPARATOR] + c,
    decreases comps.len(),
{
    let p = comps.push(c);
    if comps.len() == 1 {
        assert(p.drop_first() =~= seq![c]);
        assert(spec_join(p.drop_first()) == c);
        assert(p[0] == comps[0]);
        assert(spec_join(p) == comps[0] + seq![UID_PATH_SEPARATOR] + c);
        assert(spec_join(comps) == comps[0]);
    } else {
        assert(p.drop_first() =~= comps.drop_first().push(c));
        lemma_join_snoc(comps.drop_first(), c);
        assert(p[0] == comps[0]);
        assert(spec_join(p) == comps[0] + seq![UID_PATH_SEPARATOR] + (spec_join(comps.drop_first())
            + seq![UID_PATH_SEPARATOR] + c));
        assert(comps[0] + seq![UID_PATH_SEPARATOR] + (spec_join(comps.drop_first()) + seq![
            UID_PATH_SEPARATOR,
        ] + c) =~= (comps[0] + seq![UID_PATH_SEPARATOR] + spec_join(comps.drop_first())) + seq![
            UID_PATH_SEPARATOR,
        ] + c);
    }
}

/// A segment does not contain a character.
pub open spec fn seg_free_of(s: Seq<char>, c: char) -> bool {
    forall|k: int| 0 <= k < s.len() ==> s[k] != c
}

/// A join of separator-free segments contains a separator exactly where one
/// was put: splitting the join gives back the segments.
pub proof fn lemma_split_join(comps: Seq<Seq<char>>)
    requires
        comps.len() >= 1,
        forall|i: int| 0 <= i < comps.len() ==> seg_free_of(#[trigger] comps[i], UID_PATH_SEPARATOR),
    ensures
        spec_split(spec_join(comps), UID_PATH_SEPARATOR) == comps,
    decreases comps.len(),
{
    let j = spec_join(comps);
    if comps.len() == 1 {
        assert(j == comps[0]);
        lemma_find_none(j, UID_PATH_SEPARATOR);
        assert(spec_split(j, UID_PATH_SEPARATOR) =~= comps);
    } else {
        let c0 = comps[0];
        let rest = comps.drop_first();
        let jr = spec_join(rest);
        assert(j == c0 + seq![UID_PATH_SEPARATOR] + jr);
        let l0 = c0.len() as int;
        assert(j.len() == l0 + 1 + jr.len());
        assert(j[l0] == UID_PATH_SEPARATOR);
        assert(forall|k: int| 0 <= k < l0 ==> #[trigger] j[k] == c0[k]);
        lemma_find_at(j, UID_PATH_SEPARATOR, l0);
        assert(j.subrange(0, l0) =~= c0);
        assert(j.subrange(l0 + 1, j.len() as int) =~= jr);
        assert(forall|i: int|
            0 <= i < rest.len() ==> seg_free_of(#[trigger] rest[i], UID_PATH_SEPARATOR)) by {
            assert(forall|i: int|
                0 <= i < rest.len() ==> #[trigger] rest[i] == comps[i + 1] && seg_free_of(
                    comps[i + 1],
                    UID_PATH_SEPARATOR,
                ));
        }
        lemma_split_join(rest);
        assert(spec_split(j, UID_PATH_SEPARATOR) == seq![c0] + rest);
        assert(seq![c0] + rest =~= comps);
    }
}

/// A join of segments free of some character, none of which is the path
/// separator itself, stays free of it.
pub proof fn lemma_join_free_of(comps: Seq<Seq<char>>, c: char)
    requires
        c != UID_PATH_SEPARATOR,
        forall|i: int| 0 <= i < comps.len() ==> seg_free_of(#[trigger] comps[i], c),
    ensures
        seg_free_of(spec_join(comps), c),
    decreases comps.len(),
{
    if comps.len() <= 1 {
    } else {
        let rest = comps.drop_first();
        assert(forall|i: int| 0 <= i < rest.len() ==> seg_free_of(#[trigger] rest[i], c)) by {
            assert(forall|i: int|
                0 <= i < rest.len() ==> #[trigger] rest[i] == comps[i + 1] && seg_free_of(
                    comps[i + 1],
                    c,
                ));
        }
        lemma_join_free_of(rest, c);
        let j = spec_join(comps);
        assert(j == comps[0] + seq![UID_PATH_SEPARATOR] + spec_join(rest));
        assert forall|k: int| 0 <= k < j.len() implies j[k] != c by {
            if k < comps[0].len() {
                assert(j[k] == comps[0][k]);
            } else if k == comps[0].len() {
                assert(j[k] == UID_PATH_SEPARATOR);
            } else {
                assert(j[k] == spec_join(rest)[k - comps[0].len() - 1]);
            }
        }
    }
}

/// The identifier text: namespace, separator, joined segments.
pub open spec fn spec_format_id(ns: Seq<char>, comps: Seq<Seq<char>>) -> Seq<char> {
    ns + seq![UID_NAMESPACE_SEPARATOR] + spec_join(comps)
}

/// What parsing identifier text gives: namespace and segments, or the
/// failure.
pub open spec fn spec_parse_id(s: Seq<char>) -> Result<(Seq<char>, Seq<Seq<char>>), ArpError> {
    let i = spec_find(s, UID_NAMESPACE_SEPARATOR);
    if i == -1 {
        Err(ArpError::MissingNamespaceSeparator)
    } else {
        let ns = s.subrange(0, i);
        let rest = s.subrange(i + 1, s.len() as int);
        if spec_find(rest, UID_NAMESPACE_SEPARATOR) != -1 {
            Err(ArpError::ExtraNamespaceSeparator)
        } else if spec_find(ns, UID_PATH_SEPARATOR) != -1 {
            Err(ArpError::NamespaceHasPathSeparator)
        } else {
            let comps = spec_split(rest, UID_PATH_SEPARATOR);
            if exists|k: int| 0 <= k < comps.len() && #[trigger] comps[k].len() == 0 {
                Err(ArpError::EmptyPathComponent)
            } else {
                Ok((ns, comps))
            }
        }
    }
}

/// An identifier whose text form parses back to it: the namespace is free of
/// both separators, and every segment is nonempty and free of both.
pub open spec fn valid_identifier(ns: Seq<char>, comps: Seq<Seq<char>>) -> bool {
    &&& seg_free_of(ns, UID_NAMESPACE_SEPARATOR)
    &&& seg_free_of(ns, UID_PATH_SEPARATOR)
    &&& comps.len() >= 1
    &&& forall|i: int|
        0 <= i < comps.len() ==> (#[trigger] comps[i]).len() > 0 && seg_free_of(
            comps[i],
            UID_NAMESPACE_SEPARATOR,
        ) && seg_free_of(comps[i], UID_PATH_SEPARATOR)
}

/// Parsing a formatted identifier gives back its namespace and segments:
/// the identifier grammar round-trips on every valid identifier.
pub proof fn lemma_identifier_round_trip(ns: Seq<char>, comps: Seq<Seq<char>>)
    requires
        valid_identifier(ns, comps),
    ensures
        spec_parse_id(spec_format_id(ns, comps)) == Ok::<(Seq<char>, Seq<Seq<char>>), ArpError>(
            (ns, comps),
        ),
{
    let s = spec_format_id(ns, comps);
    let j = spec_join(comps);
    let nl = ns.len() as int;
    assert(s.len() == nl + 1 + j.len());
    assert(s[nl] == UID_NAMESPACE_SEPARATOR);
    assert(forall|k: int| 0 <= k < nl ==> #[trigger] s[k] == ns[k]);
    lemma_find_at(s, UID_NAMESPACE_SEPARATOR, nl);
    assert(s.subrange(0, nl) =~= ns);
    assert(s.subrange(nl + 1, s.len() as int) =~= j);
    lemma_join_free_of(comps, UID_NAMESPACE_SEPARATOR);
    lemma_find_none(j, UID_NAMESPACE_SEPARATOR);
    lemma_find_none(ns, UID_PATH_SEPARATOR);
    lemma_split_join(comps);
    assert(forall|k: int|
        0 <= k < comps.len() ==> (#[trigger] comps[k]).len() != 0);
}

/// A character the grammar treats as a control character.
pub open spec fn is_control_char(c: char) -> bool {
    (c as u32) < 0x20 || (0x7F <= c as u32 && c as u32 <= 0x9F)
}

/// A character reserved as a separator by the grammar.
pub open spec fn is_reserved_char(c: char) -> bool {
    c == '/' || c == '\\' || c == ':'
}

/// A name usable as a namespace or path segment: no control characters and
/// no reserved separators.
pub open spec fn valid_path_component(s: Seq<char>) -> bool {
    forall|k: int|
        0 <= k < s.len() ==> !is_control_char(#[trigger] s[k]) && !is_reserved_char(s[k])
}

/// The failure the component scan reports, decided by the first character
/// that is control or reserved.
pub open spec fn spec_component_err(s: Seq<char>) -> ArpError
    decreases s.len(),
{
    if s.len() == 0 {
        ArpError::PathComponentControlChar
    } else if is_control_char(s[0]) {
        ArpError::PathComponentControlChar
    } else if is_reserved_char(s[0]) {
        ArpError::PathComponentReservedChar
    } else {
        spec_component_err(s.drop_first())
    }
}

/// The scan's failure is decided by the first offending character.
proof fn lemma_component_err_at(s: Seq<char>, q: int)
    requires
        0 <= q < s.len(),
        forall|k: int|
            0 <= k < q ==> !is_control_char(#[trigger] s[k]) && !is_reserved_char(s[k]),
        is_control_char(s[q]) || is_reserved_char(s[q]),
    ensures
        spec_component_err(s) == (if is_control_char(s[q]) {
            ArpError::PathComponentControlChar
        } else {
            ArpError::PathComponentReservedChar
        }),
    decreases s.len(),
{
    if q > 0 {
        let d = s.drop_first();
        assert(forall|k: int| 0 <= k < d.len() ==> #[trigger] d[k] == s[k + 1]);
        lemma_component_err_at(d, q - 1);
    }
}

/// Checks a namespace or path segment for control and reserved characters.
pub fn validate_path_component(component: &str) -> (r: Result<(), ArpError>)
    ensures
        r is Ok <==> valid_path_component(component@),
        r is Err ==> r == Err::<(), ArpError>(spec_component_err(component@)),
        r is Err ==> r == Err::<(), ArpError>(ArpError::PathComponentControlChar) || r == Err::<
            (),
            ArpError,
        >(ArpError::PathComponentReservedChar),
        r == Err::<(), ArpError>(ArpError::PathComponentControlChar) ==> exists|k: int|
            0 <= k < component@.len() && is_control_char(#[trigger] component@[k]),
        r == Err::<(), ArpError>(ArpError::PathComponentReservedChar) ==> exists|k: int|
            0 <= k < component@.len() && is_reserved_char(#[trigger] component@[k]),
{
    let n = component.unicode_len();
    let mut q: usize = 0;
    while q < n
        invariant
            q <= n,
            n == component@.len(),
            forall|k: int|
                0 <= k < q ==> !is_control_char(#[trigger] component@[k]) && !is_reserved_char(
                    component@[k],
                ),
        decreases n - q,
    {
        let c = component.get_char(q);
        let v = c as u32;
        if v < 0x20 || (0x7F <= v && v <= 0x9F) {
            proof {
                lemma_component_err_at(component@, q as int);
            }
            return Err(ArpError::PathComponentControlChar);
        }
        if c == '/' || c == '\\' || c == ':' {
            proof {
                lemma_component_err_at(component@, q as int);
            }
            return Err(ArpError::PathComponentReservedChar);
        }
        q += 1;
    }
    Ok(())
}

/// Character-wise string equality: true exactly when the views agree.
pub fn str_eq(a: &str, b: &str) -> (r: bool)
    ensures
        r == (a@ == b@),
{
    let na = a.unicode_len();
    let nb = b.unicode_len();
    if na != nb {
        return false;
    }
    let mut i: usize = 0;
    while i < na
        invariant
            i <= na,
            na == a@.len(),
            na == b@.len(),
            forall|k: int| 0 <= k < i ==> a@[k] == b@[k],
        decreases na - i,
    {
        if a.get_char(i) != b.get_char(i) {
            return false;
        }
        i += 1;
    }
    proof {
        assert(a@ =~= b@);
    }
    true
}

/// A structured resource address: a namespace and a nonempty path.
#[derive(Debug, Hash, PartialEq, Eq, PartialOrd, Ord)]
pub struct ResourceIdentifier {
    /// The namespace the resource lives in.
    pub namespace: String,
    /// The path segments from the package root to the resource.
    pub components: Vec<String>,
}

impl Clone for ResourceIdentifier {
    /// The clone carries the same namespace and segments.
    fn clone(&self) -> (r: Self)
        ensures
            r.namespace@ == self.namespace@,
            r.components.deep_view() == self.components.deep_view(),
    {
        let mut components: Vec<String> = Vec::new();
        let mut k: usize = 0;
        while k < self.components.len()
            invariant
                k <= self.components@.len(),
                components@.len() == k,
                forall|j: int| 0 <= j < k ==> #[trigger] components@[j]@ == self.components@[j]@,
            decreases self.components@.len() - k,
        {
            let c = &self.components[k];
            components.push(c.clone());
            k += 1;
        }
        proof {
            assert(components.deep_view() =~= self.components.deep_view());
        }
        ResourceIdentifier { namespace: self.namespace.clone(), components }
    }
}

impl ResourceIdentifier {
    /// Builds an identifier from its parts, unchecked.
    pub fn new(namespace: String, components: Vec<String>) -> (r: ResourceIdentifier)
        ensures
            r.namespace == namespace,
            r.components == components,
    {
        ResourceIdentifier { namespace, components }
    }

    /// Parses identifier text, giving exactly what `spec_parse_id` says.
    #[verifier::loop_isolation(false)]
    pub fn parse(s: &str) -> (r: Result<ResourceIdentifier, ArpError>)
        ensures
            match r {
                Ok(id) => spec_parse_id(s@) == Ok::<(Seq<char>, Seq<Seq<char>>), ArpError>(
                    (id.namespace@, id.components.deep_view()),
                ),
                Err(e) => spec_parse_id(s@) == Err::<(Seq<char>, Seq<Seq<char>>), ArpError>(e),
            },
    {
        let n = s.unicode_len();
        let mut i: usize = 0;
        while i < n && s.get_char(i) != ':'
            invariant
                i <= n,
                n == s@.len(),
                forall|k: int| 0 <= k < i ==> s@[k] != ':',
            decreases n - i,
        {
            i += 1;
        }
        if i == n {
            proof {
                lemma_find_none(s@, ':');
            }
            return Err(ArpError::MissingNamespaceSeparator);
        }
        proof {
            lemma_find_at(s@, ':', i as int);
        }
        let ghost fi = i as int;
        let ghost rest = s@.subrange(fi + 1, s@.len() as int);
        let mut j: usize = i + 1;
        while j < n && s.get_char(j) != ':'
            invariant
                i < j + 1,
                i + 1 <= j <= n,
                n == s@.len(),
                forall|k: int| i < k < j ==> s@[k] != ':',
            decreases n - j,
        {
            j += 1;
        }
        if j < n {
            proof {
                assert(rest[j - fi - 1] == s@[j as int]);
                assert(forall|k: int| 0 <= k < j - fi - 1 ==> #[trigger] rest[k] == s@[k + fi + 1]);
                lemma_find_at(rest, ':', j - fi - 1);
            }
            return Err(ArpError::ExtraNamespaceSeparator);
        }
        proof {
            assert(forall|k: int| 0 <= k < rest.len() ==> #[trigger] rest[k] == s@[k + fi + 1]);
            lemma_find_none(rest, ':');
        }
        let ghost nsv = s@.subrange(0, fi);
        let mut q: usize = 0;
        while q < i && s.get_char(q) != '/'
            invariant
                q <= i,
                i < n,
                n == s@.len(),
                forall|k: int| 0 <= k < q ==> s@[k] != '/',
            decreases i - q,
        {
            q += 1;
        }
        if q < i {
            proof {
                assert(nsv[q as int] == s@[q as int]);
                assert(forall|k: int| 0 <= k < q ==> #[trigger] nsv[k] == s@[k]);
                lemma_find_at(nsv, '/', q as int);
            }
            return Err(ArpError::NamespaceHasPathSeparator);
        }
        proof {
            assert(forall|k: int| 0 <= k < nsv.len() ==> #[trigger] nsv[k] == s@[k]);
            lemma_find_none(nsv, '/');
        }
        let namespace = s.substring_char(0, i).to_owned();
        let mut components: Vec<String> = Vec::new();
        let mut start: usize = i + 1;
        let mut p: usize = i + 1;
        let mut done: bool = false;
        proof {
            assert(rest.subrange(0, rest.len() as int) =~= rest);
            assert(components.deep_view() =~= Seq::<Seq<char>>::empty());
            assert(components.deep_view() + spec_split(rest, '/') =~= spec_split(rest, '/'));
        }
        while !done
            invariant
                n == s@.len(),
                0 <= fi < n,
                rest == s@.subrange(fi + 1, s@.len() as int),
                fi + 1 <= start,
                start <= p <= n,
                i == fi,
                forall|k: int| start <= k < p ==> s@[k] != '/',
                !done ==> spec_split(rest, '/') == components.deep_view() + spec_split(
                    rest.subrange(start - (fi + 1), rest.len() as int),
                    '/',
                ),
                done ==> components.deep_view() == spec_split(rest, '/'),
            decreases (if done { 0int } else { 1int }), n - p,
        {
            if p < n {
                let c = s.get_char(p);
                if c == '/' {
                    let ghost suffix = rest.subrange(start - (fi + 1), rest.len() as int);
                    proof {
                        assert(forall|k: int|
                            0 <= k < suffix.len() ==> #[trigger] suffix[k] == s@[k + start]);
                        assert(suffix[p - start] == s@[p as int]);
                        lemma_find_at(suffix, '/', p - start);
                        assert(suffix.subrange(0, p - start) =~= s@.subrange(
                            start as int,
                            p as int,
                        ));
                        assert(suffix.subrange(p - start + 1, suffix.len() as int) =~= rest.subrange(
                            p + 1 - (fi + 1),
                            rest.len() as int,
                        ));
                    }
                    let piece = s.substring_char(start, p).to_owned();
                    let ghost dv_before = components.deep_view();
                    components.push(piece);
                    proof {
                        assert(components.deep_view() =~= dv_before.push(s@.subrange(
                            start as int,
                            p as int,
                        )));
                        assert(spec_split(suffix, '/') == seq![
                            s@.subrange(start as int, p as int),
                        ] + spec_split(
                            rest.subrange(p + 1 - (fi + 1), rest.len() as int),
                            '/',
                        ));
                        assert(dv_before + spec_split(suffix, '/') =~= components.deep_view()
                            + spec_split(rest.subrange(p + 1 - (fi + 1), rest.len() as int), '/'));
                    }
                    start = p + 1;
                    p = p + 1;
                } else {
                    p = p + 1;
                }
            } else {
                let ghost suffix = rest.subrange(start - (fi + 1), rest.len() as int);
                proof {
                    assert(forall|k: int|
                        0 <= k < suffix.len() ==> #[trigger] suffix[k] == s@[k + start]);
                    lemma_find_none(suffix, '/');
                    assert(suffix =~= s@.subrange(start as int, n as int));
                }
                let piece = s.substring_char(start, n).to_owned();
                let ghost dv_before = components.deep_view();
                components.push(piece);
                proof {
                    assert(components.deep_view() =~= dv_before.push(s@.subrange(
                        start as int,
                        n as int,
                    )));
                    assert(spec_split(suffix, '/') == seq![s@.subrange(start as int, n as int)]);
                    assert(dv_before + spec_split(suffix, '/') =~= components.deep_view());
                }
                done = true;
            }
        }
        let mut e: usize = 0;
        while e < components.len()
            invariant
                e <= components@.len(),
                components.deep_view() == spec_split(rest, '/'),
                forall|k: int| 0 <= k < e ==> #[trigger] components.deep_view()[k].len() != 0,
            decreases components@.len() - e,
        {
            let c = &components[e];
            if c.as_str().is_empty() {
                proof {
                    let comps = spec_split(rest, '/');
                    assert(comps[e as int].len() == 0);
                    assert(exists|k: int| 0 <= k < comps.len() && #[trigger] comps[k].len() == 0);
                }
                return Err(ArpError::EmptyPathComponent);
            }
            e += 1;
        }
        proof {
            let comps = spec_split(rest, '/');
            assert(!(exists|k: int| 0 <= k < comps.len() && #[trigger] comps[k].len() == 0));
            assert(spec_parse_id(s@) == Ok::<(Seq<char>, Seq<Seq<char>>), ArpError>((nsv, comps)));
            assert(namespace@ == nsv);
            assert(components.deep_view() == comps);
        }
        Ok(ResourceIdentifier { namespace, components })
    }

    /// Formats the identifier as text, giving exactly `spec_format_id`.
    pub fn to_string(&self) -> (r: String)
        ensures
            r@ == spec_format_id(self.namespace@, self.components.deep_view()),
    {
        proof {
            reveal_strlit(":");
            reveal_strlit("/");
        }
        let mut out: String = String::new();
        out.append(self.namespace.as_str());
        out.append(":");
        proof {
            assert(":"@ =~= seq![':']);
            assert(out@ == self.namespace@ + seq![UID_NAMESPACE_SEPARATOR]);
        }
        let ghost dv = self.components.deep_view();
        let mut k: usize = 0;
        while k < self.components.len()
            invariant
                dv == self.components.deep_view(),
                dv.len() == self.components@.len(),
                k <= self.components@.len(),
                k >= 1 ==> out@ == self.namespace@ + seq![UID_NAMESPACE_SEPARATOR] + spec_join(
                    dv.subrange(0, k as int),
                ),
                k == 0 ==> out@ == self.namespace@ + seq![UID_NAMESPACE_SEPARATOR],
            decreases self.components@.len() - k,
        {
            proof {
                reveal_strlit("/");
            }
            if k > 0 {
                out.append("/");
            }
            let c = &self.components[k];
            out.append(c.as_str());
            proof {
                assert("/"@ =~= seq!['/']);
                assert(dv[k as int] == self.components@[k as int]@);
                if k == 0 {
                    assert(dv.subrange(0, 1) =~= seq![dv[0]]);
                    assert(spec_join(dv.subrange(0, 1)) == dv[0]);
                } else {
                    lemma_join_snoc(dv.subrange(0, k as int), dv[k as int]);
                    assert(dv.subrange(0, k as int).push(dv[k as int]) =~= dv.subrange(
                        0,
                        k + 1 as int,
                    ));
                    assert(out@ == self.namespace@ + seq![UID_NAMESPACE_SEPARATOR] + (spec_join(
                        dv.subrange(0, k as int),
                    ) + seq![UID_PATH_SEPARATOR] + dv[k as int]));
                    assert(self.namespace@ + seq![UID_NAMESPACE_SEPARATOR] + (spec_join(
                        dv.subrange(0, k as int),
                    ) + seq![UID_PATH_SEPARATOR] + dv[k as int]) =~= self.namespace@ + seq![
                        UID_NAMESPACE_SEPARATOR,
                    ] + spec_join(dv.subrange(0, k + 1 as int)));
                }
            }
            k += 1;
        }
        proof {
            assert(dv.subrange(0, dv.len() as int) =~= dv);
            if dv.len() == 0 {
                assert(spec_join(dv) == Seq::<char>::empty());
                assert(out@ =~= self.namespace@ + seq![UID_NAMESPACE_SEPARATOR] + spec_join(dv));
            }
        }
        out
    }
}


} // verus!
