//! Header fields and their structural validation.
use vstd::prelude::*;

verus! {

/// One header field: a name and a value, both as raw bytes.
#[derive(Clone, Debug, PartialEq, Eq)]
pub struct Header {
    pub name: Vec<u8>,
    pub value: Vec<u8>,
}

/// Where in a stream a header block stands.
#[derive(Clone, Copy, Debug, PartialEq, Eq, Structural)]
pub enum HeadersPlace {
    Initial,
    Trailing,
}

/// Why a header block was refused.
#[derive(Clone, Copy, Debug, PartialEq, Eq, Structural)]
pub enum HeaderError {
    /// A pseudo-header stands after a regular header.
    PseudoAfterRegular,
    /// A pseudo-header that a request may not carry, or any pseudo-header in trailers.
    UnexpectedPseudo,
    /// A required pseudo-header is missing or repeated.
    PseudoCount,
}

pub open spec fn colon() -> u8 { 58u8 }

pub open spec fn is_pseudo(n: Seq<u8>) -> bool {
    n.len() > 0 && n[0] == colon()
}

pub open spec fn method_name() -> Seq<u8> { seq![58u8, 109, 101, 116, 104, 111, 100] }
pub open spec fn path_name() -> Seq<u8> { seq![58u8, 112, 97, 116, 104] }
pub open spec fn scheme_name() -> Seq<u8> { seq![58u8, 115, 99, 104, 101, 109, 101] }
pub open spec fn authority_name() -> Seq<u8> { seq![58u8, 97, 117, 116, 104, 111, 114, 105, 116, 121] }

pub open spec fn host_name() -> Seq<u8> { seq![104u8, 111, 115, 116] }

pub open spec fn is_request_pseudo(n: Seq<u8>) -> bool {
    n == method_name() || n == path_name() || n == scheme_name() || n == authority_name()
}

pub open spec fn names(hs: Seq<Header>) -> Seq<Seq<u8>> {
    hs.map_values(|h: Header| h.name@)
}

/// Number of fields of the block whose name is `name`.
pub open spec fn count_name(ns: Seq<Seq<u8>>, name: Seq<u8>) -> nat
    decreases ns.len(),
{
    if ns.len() == 0 {
        0
    } else {
        count_name(ns.drop_last(), name) + if ns.last() == name { 1nat } else { 0nat }
    }
}

/// Every pseudo-header comes before every regular header.
pub open spec fn pseudo_first(ns: Seq<Seq<u8>>) -> bool {
    forall|i: int, j: int| 0 <= i < j < ns.len() && is_pseudo(ns[j]) ==> is_pseudo(ns[i])
}

pub open spec fn valid_request_block(ns: Seq<Seq<u8>>, place: HeadersPlace) -> bool {
    match place {
        HeadersPlace::Initial => {
            &&& pseudo_first(ns)
            &&& forall|i: int| 0 <= i < ns.len() && is_pseudo(ns[i]) ==> is_request_pseudo(ns[i])
            &&& count_name(ns, method_name()) == 1
            &&& count_name(ns, path_name()) == 1
            &&& count_name(ns, scheme_name()) == 1
            &&& count_name(ns, authority_name()) <= 1
            &&& count_name(ns, authority_name()) == 1 || count_name(ns, host_name()) >= 1
        },
        HeadersPlace::Trailing => forall|i: int| 0 <= i < ns.len() ==> !is_pseudo(ns[i]),
    }
}

fn bytes_eq(a: &Vec<u8>, b: &Vec<u8>) -> (r: bool)
    ensures
        r == (a@ == b@),
{
    if a.len() != b.len() {
        return false;
    }
    let mut i: usize = 0;
    while i < a.len()
        invariant
            a@.len() == b@.len(),
            0 <= i <= a@.len(),
            forall|k: int| 0 <= k < i ==> a@[k] == b@[k],
        decreases a@.len() - i,
    {
        if a[i] != b[i] {
            return false;
        }
        i = i + 1;
    }
    assert(a@ =~= b@);
    true
}

fn is_pseudo_exec(n: &Vec<u8>) -> (r: bool)
    ensures
        r == is_pseudo(n@),
{
    n.len() > 0 && n[0] == 58u8
}

proof fn lemma_count_push(ns: Seq<Seq<u8>>, i: int, name: Seq<u8>)
    requires
        0 <= i < ns.len(),
    ensures
        count_name(ns.subrange(0, i + 1), name) == count_name(ns.subrange(0, i), name)
            + if ns[i] == name { 1nat } else { 0nat },
{
    assert(ns.subrange(0, i + 1).drop_last() =~= ns.subrange(0, i));
}

/// Checks a request header block against the placement rules: in an initial
/// block pseudo-headers come first, only the four request pseudo-headers may
/// appear, `:method`, `:path` and `:scheme` exactly once, and the authority
/// is named by `:authority` once or else by a `host` field; a trailing block
/// carries no pseudo-header.
pub fn validate_request(headers: &Vec<Header>, place: HeadersPlace) -> (r: Result<(), HeaderError>)
    ensures
        r is Ok <==> valid_request_block(names(headers@), place),
{
    let ghost ns = names(headers@);
    let m = vec![58u8, 109, 101, 116, 104, 111, 100];
    let p = vec![58u8, 112, 97, 116, 104];
    let s = vec![58u8, 115, 99, 104, 101, 109, 101];
    let a = vec![58u8, 97, 117, 116, 104, 111, 114, 105, 116, 121];
    let hst = vec![104u8, 111, 115, 116];
    assert(hst@ =~= host_name());
    assert(m@ =~= method_name());
    assert(p@ =~= path_name());
    assert(s@ =~= scheme_name());
    assert(a@ =~= authority_name());
    let mut seen_regular = false;
    let mut nm: u64 = 0;
    let mut np: u64 = 0;
    let mut nsc: u64 = 0;
    let mut na: u64 = 0;
    let mut nh: u64 = 0;
    let mut i: usize = 0;
    while i < headers.len()
        invariant
            ns == names(headers@),
            ns.len() == headers@.len(),
            0 <= i <= headers@.len(),
            m@ == method_name(),
            p@ == path_name(),
            s@ == scheme_name(),
            a@ == authority_name(),
            seen_regular <==> exists|k: int| 0 <= k < i && !is_pseudo(ns[k]),
            pseudo_first(ns.subrange(0, i as int)),
            place == HeadersPlace::Trailing ==> forall|k: int| 0 <= k < i ==> !is_pseudo(ns[k]),
            forall|k: int| 0 <= k < i && is_pseudo(ns[k]) ==> is_request_pseudo(ns[k]),
            nm == count_name(ns.subrange(0, i as int), method_name()),
            np == count_name(ns.subrange(0, i as int), path_name()),
            nsc == count_name(ns.subrange(0, i as int), scheme_name()),
            na == count_name(ns.subrange(0, i as int), authority_name()),
            nh == count_name(ns.subrange(0, i as int), host_name()),
            hst@ == host_name(),
            nm <= i && np <= i && nsc <= i && na <= i && nh <= i,
        decreases headers@.len() - i,
    {
        let n = &headers[i].name;
        assert(n@ == ns[i as int]);
        proof {
            lemma_count_push(ns, i as int, method_name());
            lemma_count_push(ns, i as int, path_name());
            lemma_count_push(ns, i as int, scheme_name());
            lemma_count_push(ns, i as int, authority_name());
            lemma_count_push(ns, i as int, host_name());
        }
        if is_pseudo_exec(n) {
            if seen_regular {
                assert(!pseudo_first(ns)) by {
                    let k = choose|k: int| 0 <= k < i && !is_pseudo(ns[k]);
                    assert(0 <= k < i as int && is_pseudo(ns[i as int]) && !is_pseudo(ns[k]));
                }
                return Err(HeaderError::PseudoAfterRegular);
            }
            if place == HeadersPlace::Trailing {
                return Err(HeaderError::UnexpectedPseudo);
            }
            if bytes_eq(n, &m) {
                nm = nm + 1;
            } else if bytes_eq(n, &p) {
                np = np + 1;
            } else if bytes_eq(n, &s) {
                nsc = nsc + 1;
            } else if bytes_eq(n, &a) {
                na = na + 1;
            } else {
                return Err(HeaderError::UnexpectedPseudo);
            }
        } else {
            seen_regular = true;
            if bytes_eq(n, &hst) {
                nh = nh + 1;
            }
        }
        proof {
            let sub = ns.subrange(0, i as int + 1);
            assert forall|x: int, y: int| 0 <= x < y < sub.len() && is_pseudo(sub[y]) implies is_pseudo(sub[x]) by {
                if y < i as int {
                    assert(ns.subrange(0, i as int)[x] == sub[x]);
                    assert(ns.subrange(0, i as int)[y] == sub[y]);
                }
            }
        }
        i = i + 1;
    }
    assert(ns.subrange(0, ns.len() as int) =~= ns);
    if place == HeadersPlace::Trailing {
        return Ok(());
    }
    if nm == 1 && np == 1 && nsc == 1 && na <= 1 && (na == 1 || nh >= 1) {
        Ok(())
    } else {
        Err(HeaderError::PseudoCount)
    }
}

/// The header list of a request: `:method`, `:path`, `:authority` and
/// `:scheme`, in that order, then the extra fields as given.
pub fn request_headers(
    method: Vec<u8>,
    path: Vec<u8>,
    authority: Vec<u8>,
    scheme: Vec<u8>,
    extras: Vec<Header>,
) -> (r: Vec<Header>)
    ensures
        r@.len() == 4 + extras@.len(),
        names(r@).subrange(0, 4) == seq![method_name(), path_name(), authority_name(), scheme_name()],
        r@[0].value@ == method@,
        r@[1].value@ == path@,
        r@[2].value@ == authority@,
        r@[3].value@ == scheme@,
        r@.subrange(4, r@.len() as int) == extras@,
{
    let m = vec![58u8, 109, 101, 116, 104, 111, 100];
    let p = vec![58u8, 112, 97, 116, 104];
    let a = vec![58u8, 97, 117, 116, 104, 111, 114, 105, 116, 121];
    let s = vec![58u8, 115, 99, 104, 101, 109, 101];
    assert(m@ =~= method_name());
    assert(p@ =~= path_name());
    assert(a@ =~= authority_name());
    assert(s@ =~= scheme_name());
    let mut r = vec![
        Header { name: m, value: method },
        Header { name: p, value: path },
        Header { name: a, value: authority },
        Header { name: s, value: scheme },
    ];
    let mut e = extras;
    let ghost ex = e@;
    r.append(&mut e);
    assert(r@.subrange(4, r@.len() as int) =~= ex);
    assert(names(r@).subrange(0, 4) =~= seq![method_name(), path_name(), authority_name(), scheme_name()]);
    r
}

} // verus!
