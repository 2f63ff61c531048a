//! Port discovery: parsing the cluster-inspection tools' textual output.
//! A header line names a node (`CCTL :: SIDECAR-3`, `CCTL :: NODE-1`); a
//! service line below it maps a named service to its listening port
//! (`CCTL ::   MAIN-RPC  ----> 21101`). The scan associates each discovered
//! node index with its services' ports. A line whose port digits do not fit
//! the port type is skipped: an explicit parse-failure mode instead of
//! silent mis-extraction.

use vstd::prelude::*;

use crate::text::to_chars;
use vstd::string::StrSliceExecFns;

verus! {

/// A decimal digit.
pub open spec fn is_digit(c: char) -> bool {
    48 <= c as int && c as int <= 57
}

/// Whitespace, as the pattern class `\s` reads it.
pub open spec fn is_ws(c: char) -> bool {
    c == ' ' || c == '\t' || c == '\n' || c == '\r' || c == '\u{b}' || c == '\u{c}'
}

/// The value of a run of decimal digits, most significant first.
pub open spec fn digits_value(s: Seq<char>) -> int
    decreases s.len(),
{
    if s.len() == 0 {
        0
    } else {
        digits_value(s.drop_last()) * 10 + (s.last() as int - 48)
    }
}

/// The end of the run of digits starting at `i`.
pub open spec fn digits_end(line: Seq<char>, i: int) -> int
    recommends
        0 <= i <= line.len(),
    decreases line.len() - i,
{
    if i < line.len() && i >= 0 && is_digit(line[i]) {
        digits_end(line, i + 1)
    } else {
        i
    }
}

/// The end of the run of whitespace starting at `i`.
pub open spec fn ws_end(line: Seq<char>, i: int) -> int
    recommends
        0 <= i <= line.len(),
    decreases line.len() - i,
{
    if i < line.len() && i >= 0 && is_ws(line[i]) {
        ws_end(line, i + 1)
    } else {
        i
    }
}

/// The end of the run of hyphens starting at `i`.
pub open spec fn hyphens_end(line: Seq<char>, i: int) -> int
    recommends
        0 <= i <= line.len(),
    decreases line.len() - i,
{
    if i < line.len() && i >= 0 && line[i] == '-' {
        hyphens_end(line, i + 1)
    } else {
        i
    }
}

/// The end of the run of plain spaces starting at `i`.
pub open spec fn spaces_end(line: Seq<char>, i: int) -> int
    recommends
        0 <= i <= line.len(),
    decreases line.len() - i,
{
    if i < line.len() && i >= 0 && line[i] == ' ' {
        spaces_end(line, i + 1)
    } else {
        i
    }
}

/// `tag` occurs at `p` immediately followed by at least one digit.
pub open spec fn tag_match_at(line: Seq<char>, tag: Seq<char>, p: int) -> bool {
    &&& 0 <= p
    &&& p + tag.len() < line.len()
    &&& line.subrange(p, p + tag.len()) == tag
    &&& is_digit(line[p + tag.len()])
}

/// The leftmost `q >= p` where `tag` is followed by a digit.
pub open spec fn find_tag_from(line: Seq<char>, tag: Seq<char>, p: int) -> Option<int>
    recommends
        0 <= p,
    decreases line.len() - p,
{
    if p + tag.len() >= line.len() || p < 0 {
        Option::None
    } else if tag_match_at(line, tag, p) {
        Option::Some(p)
    } else {
        find_tag_from(line, tag, p + 1)
    }
}

/// The digit run captured after the leftmost occurrence of the header
/// `tag`, when the line matches the header pattern.
pub open spec fn header_capture(line: Seq<char>, tag: Seq<char>) -> Option<Seq<char>> {
    match find_tag_from(line, tag, 0) {
        Option::None => Option::None,
        Option::Some(p) => {
            let d0 = p + tag.len();
            Option::Some(line.subrange(d0, digits_end(line, d0)))
        },
    }
}

/// A service line match at `p`: the tool's banner `CCTL ::`, whitespace,
/// the service name, whitespace, a run of hyphens ending in `>`, optional
/// spaces, then the port digits starting at the returned index.
pub open spec fn service_match_at(line: Seq<char>, service: Seq<char>, p: int) -> Option<int> {
    let t = "CCTL ::"@;
    if 0 <= p && p + t.len() <= line.len() && line.subrange(p, p + t.len()) == t {
        let a = ws_end(line, p + t.len());
        if a > p + t.len() && a + service.len() <= line.len() && line.subrange(
            a,
            a + service.len(),
        ) == service {
            let b = ws_end(line, a + service.len());
            if b > a + service.len() {
                let c = hyphens_end(line, b);
                if c > b && c < line.len() && line[c] == '>' {
                    let d = spaces_end(line, c + 1);
                    if d < line.len() && is_digit(line[d]) {
                        Option::Some(d)
                    } else {
                        Option::None
                    }
                } else {
                    Option::None
                }
            } else {
                Option::None
            }
        } else {
            Option::None
        }
    } else {
        Option::None
    }
}

/// The digit start of the leftmost service match at or after `p`.
pub open spec fn find_service_from(line: Seq<char>, service: Seq<char>, p: int) -> Option<int>
    recommends
        0 <= p,
    decreases line.len() - p,
{
    if p < 0 || p >= line.len() {
        Option::None
    } else if service_match_at(line, service, p) is Some {
        service_match_at(line, service, p)
    } else {
        find_service_from(line, service, p + 1)
    }
}

/// The port number on a line matching the service pattern for `service`.
pub open spec fn service_port(line: Seq<char>, service: Seq<char>) -> Option<int> {
    match find_service_from(line, service, 0) {
        Option::None => Option::None,
        Option::Some(d) => Option::Some(digits_value(line.subrange(d, digits_end(line, d)))),
    }
}

fn is_digit_exec(c: char) -> (r: bool)
    ensures
        r == is_digit(c),
{
    let u = c as u32;
    48 <= u && u <= 57
}

fn is_ws_exec(c: char) -> (r: bool)
    ensures
        r == is_ws(c),
{
    c == ' ' || c == '\t' || c == '\n' || c == '\r' || c == '\u{b}' || c == '\u{c}'
}

fn digits_end_exec(cs: &Vec<char>, i: usize) -> (r: usize)
    requires
        i <= cs@.len(),
    ensures
        r == digits_end(cs@, i as int),
        i <= r <= cs@.len(),
        forall|k: int| i <= k < r ==> is_digit(cs@[k]),
{
    let n = cs.len();
    let mut j = i;
    while j < n && is_digit_exec(cs[j])
        invariant
            i <= j <= n,
            n == cs@.len(),
            digits_end(cs@, i as int) == digits_end(cs@, j as int),
            forall|k: int| i <= k < j ==> is_digit(cs@[k]),
        decreases n - j,
    {
        j = j + 1;
    }
    j
}

fn ws_end_exec(cs: &Vec<char>, i: usize) -> (r: usize)
    requires
        i <= cs@.len(),
    ensures
        r == ws_end(cs@, i as int),
        i <= r <= cs@.len(),
{
    let n = cs.len();
    let mut j = i;
    while j < n && is_ws_exec(cs[j])
        invariant
            i <= j <= n,
            n == cs@.len(),
            ws_end(cs@, i as int) == ws_end(cs@, j as int),
        decreases n - j,
    {
        j = j + 1;
    }
    j
}

fn hyphens_end_exec(cs: &Vec<char>, i: usize) -> (r: usize)
    requires
        i <= cs@.len(),
    ensures
        r == hyphens_end(cs@, i as int),
        i <= r <= cs@.len(),
{
    let n = cs.len();
    let mut j = i;
    while j < n && cs[j] == '-'
        invariant
            i <= j <= n,
            n == cs@.len(),
            hyphens_end(cs@, i as int) == hyphens_end(cs@, j as int),
        decreases n - j,
    {
        j = j + 1;
    }
    j
}

fn spaces_end_exec(cs: &Vec<char>, i: usize) -> (r: usize)
    requires
        i <= cs@.len(),
    ensures
        r == spaces_end(cs@, i as int),
        i <= r <= cs@.len(),
{
    let n = cs.len();
    let mut j = i;
    while j < n && cs[j] == ' '
        invariant
            i <= j <= n,
            n == cs@.len(),
            spaces_end(cs@, i as int) == spaces_end(cs@, j as int),
        decreases n - j,
    {
        j = j + 1;
    }
    j
}

fn chars_eq_at(hay: &Vec<char>, needle: &Vec<char>, at: usize) -> (r: bool)
    requires
        at + needle@.len() <= hay@.len(),
    ensures
        r == (hay@.subrange(at as int, at + needle@.len()) == needle@),
{
    let n = needle.len();
    let hay_len = hay.len();
    let mut j: usize = 0;
    while j < n
        invariant
            n == needle@.len(),
            hay_len == hay@.len(),
            at + n <= hay_len,
            j <= n,
            forall|k: int| 0 <= k < j ==> hay@[at + k] == needle@[k],
        decreases n - j,
    {
        if hay[at + j] != needle[j] {
            proof {
                assert(hay@.subrange(at as int, at + needle@.len())[j as int] != needle@[j as int]);
            }
            return false;
        }
        j = j + 1;
    }
    proof {
        assert(hay@.subrange(at as int, at + needle@.len()) =~= needle@);
    }
    true
}

/// The digits captured after the leftmost occurrence of the header `tag`
/// followed by a digit, or `None` when the line does not match.
pub fn parse_header_line(line: &String, tag: &str) -> (r: Option<String>)
    ensures
        r is Some <==> header_capture(line@, tag@) is Some,
        r is Some ==> r.unwrap()@ == header_capture(line@, tag@)->Some_0,
{
    let cs = to_chars(line.as_str());
    let tc = to_chars(tag);
    let n = cs.len();
    let tn = tc.len();
    let mut p: usize = 0;
    loop
        invariant
            cs@ == line@,
            tc@ == tag@,
            n == cs@.len(),
            tn == tc@.len(),
            0 <= p <= n,
            find_tag_from(line@, tag@, 0) == find_tag_from(line@, tag@, p as int),
        ensures
            find_tag_from(line@, tag@, 0) is None,
        decreases n - p,
    {
        if p >= n || tn >= n - p {
            break ;
        }
        if chars_eq_at(&cs, &tc, p) && is_digit_exec(cs[p + tn]) {
            let d0 = p + tn;
            let de = digits_end_exec(&cs, d0);
            proof {
                assert(tag_match_at(line@, tag@, p as int));
                assert(find_tag_from(line@, tag@, p as int) == Option::Some(p as int));
            }
            return Some(String::from_str(line.as_str().substring_char(d0, de)));
        }
        proof {
            assert(!tag_match_at(line@, tag@, p as int));
        }
        p = p + 1;
    }
    proof {
        assert(header_capture(line@, tag@) is None);
    }
    None
}

/// The port of the leftmost service match on the line, or `None` when the
/// line does not match the pattern for `service` or the digits exceed the
/// port type.
pub fn parse_service_line(line: &String, service: &str) -> (r: Option<i32>)
    ensures
        r is Some <==> (service_port(line@, service@) is Some && service_port(
            line@,
            service@,
        )->Some_0 <= i32::MAX),
        r is Some ==> r.unwrap() == service_port(line@, service@)->Some_0,
{
    let cs = to_chars(line.as_str());
    let sc = to_chars(service);
    let banner = to_chars("CCTL ::");
    let n = cs.len();
    let mut p: usize = 0;
    loop
        invariant
            cs@ == line@,
            sc@ == service@,
            banner@ == "CCTL ::"@,
            n == cs@.len(),
            0 <= p <= n,
            find_service_from(line@, service@, 0) == find_service_from(line@, service@, p as int),
        ensures
            find_service_from(line@, service@, 0) is None,
        decreases n - p,
    {
        if p >= n {
            break ;
        }
        let m = check_service_at(&cs, &sc, &banner, p);
        match m {
            Some(d) => {
                proof {
                    assert(find_service_from(line@, service@, p as int) == Option::Some(d as int));
                }
                let de = digits_end_exec(&cs, d);
                let v = digits_to_i32(&cs, d, de);
                proof {
                    assert(line@.subrange(d as int, de as int) == cs@.subrange(d as int, de as int));
                }
                return v;
            },
            None => {
                proof {
                    assert(service_match_at(line@, service@, p as int) is None);
                }
                p = p + 1;
            },
        }
    }
    proof {
        assert(service_port(line@, service@) is None);
    }
    None
}

fn check_service_at(cs: &Vec<char>, sc: &Vec<char>, banner: &Vec<char>, p: usize) -> (r: Option<
    usize,
>)
    requires
        banner@ == "CCTL ::"@,
        p <= cs@.len(),
    ensures
        match r {
            Some(d) => service_match_at(cs@, sc@, p as int) == Option::Some(d as int) && d
                < cs@.len(),
            None => service_match_at(cs@, sc@, p as int) is None,
        },
{
    let n = cs.len();
    let tn = banner.len();
    if tn > n - p {
        return None;
    }
    if !chars_eq_at(cs, banner, p) {
        return None;
    }
    let a = ws_end_exec(cs, p + tn);
    if !(a > p + tn) {
        return None;
    }
    if sc.len() > n - a {
        return None;
    }
    if !chars_eq_at(cs, sc, a) {
        return None;
    }
    let b = ws_end_exec(cs, a + sc.len());
    if !(b > a + sc.len()) {
        return None;
    }
    let c = hyphens_end_exec(cs, b);
    if !(c > b && c < n && cs[c] == '>') {
        return None;
    }
    let d = spaces_end_exec(cs, c + 1);
    if d < n && is_digit_exec(cs[d]) {
        Some(d)
    } else {
        None
    }
}

/// The value of the digit run `cs[d..de]` as a port, or `None` when it
/// exceeds the port type.
fn digits_to_i32(cs: &Vec<char>, d: usize, de: usize) -> (r: Option<i32>)
    requires
        d <= de <= cs@.len(),
        forall|k: int| d <= k < de ==> is_digit(cs@[k]),
    ensures
        r is Some <==> digits_value(cs@.subrange(d as int, de as int)) <= i32::MAX,
        r is Some ==> r.unwrap() == digits_value(cs@.subrange(d as int, de as int)),
{
    let mut v: i32 = 0;
    let mut j = d;
    while j < de
        invariant
            d <= j <= de <= cs@.len(),
            forall|k: int| d <= k < de ==> is_digit(cs@[k]),
            0 <= v,
            v == digits_value(cs@.subrange(d as int, j as int)),
        decreases de - j,
    {
        proof {
            assert(cs@.subrange(d as int, j + 1).drop_last() =~= cs@.subrange(d as int, j as int));
            assert(cs@.subrange(d as int, j + 1).last() == cs@[j as int]);
        }
        let digit = (cs[j] as u32) - 48;
        if v > (i32::MAX - digit as i32) / 10 {
            proof {
                lemma_digits_value_grows(cs@, d as int, j + 1, de as int);
            }
            return None;
        }
        v = v * 10 + digit as i32;
        j = j + 1;
    }
    proof {
        assert(cs@.subrange(d as int, de as int) == cs@.subrange(d as int, j as int));
    }
    Some(v)
}

/// The value of a digit run only grows as the run extends.
proof fn lemma_digits_value_grows(s: Seq<char>, d: int, m: int, e: int)
    requires
        0 <= d <= m <= e <= s.len(),
        forall|k: int| d <= k < e ==> is_digit(s[k]),
    ensures
        digits_value(s.subrange(d, e)) >= digits_value(s.subrange(d, m)),
        digits_value(s.subrange(d, m)) >= 0,
    decreases e - m,
{
    if m == e {
        assert(s.subrange(d, e) == s.subrange(d, m));
        lemma_digits_value_nonneg(s.subrange(d, m));
    } else {
        lemma_digits_value_grows(s, d, m + 1, e);
        lemma_digits_value_nonneg(s.subrange(d, m));
        assert(s.subrange(d, m + 1).drop_last() =~= s.subrange(d, m));
        assert(s.subrange(d, m + 1).last() == s[m]);
        assert(digits_value(s.subrange(d, m + 1)) >= digits_value(s.subrange(d, m)));
    }
}

/// The index of the first entry keyed `k`, or `None`.
pub open spec fn first_index<T>(m: Seq<(Seq<char>, T)>, k: Seq<char>) -> Option<int>
    decreases m.len(),
{
    if m.len() == 0 {
        Option::None
    } else if m[0].0 == k {
        Option::Some(0)
    } else {
        match first_index(m.drop_first(), k) {
            Option::None => Option::None,
            Option::Some(i) => Option::Some(i + 1),
        }
    }
}

/// With unique keys, an entry keyed `k` at `i` makes `i` the first index.
pub proof fn lemma_first_index_at<T>(m: Seq<(Seq<char>, T)>, k: Seq<char>, i: int)
    requires
        forall|a: int, b: int| 0 <= a < b < m.len() ==> (#[trigger] m[a]).0 != (#[trigger] m[b]).0,
        0 <= i < m.len(),
        m[i].0 == k,
    ensures
        first_index(m, k) == Option::Some(i),
    decreases i,
{
    if i == 0 {
    } else {
        assert(m[0].0 != m[i].0);
        let rest = m.drop_first();
        assert(forall|a: int, b: int|
            0 <= a < b < rest.len() ==> (#[trigger] rest[a]).0 != (#[trigger] rest[b]).0) by {
            assert(forall|a: int| 0 <= a < rest.len() ==> rest[a] == m[a + 1]);
        }
        lemma_first_index_at(rest, k, i - 1);
    }
}

/// No entry keyed `k` means no first index.
pub proof fn lemma_first_index_none<T>(m: Seq<(Seq<char>, T)>, k: Seq<char>)
    requires
        forall|a: int| 0 <= a < m.len() ==> (#[trigger] m[a]).0 != k,
    ensures
        first_index(m, k) is None,
    decreases m.len(),
{
    if m.len() > 0 {
        let rest = m.drop_first();
        assert(forall|a: int| 0 <= a < rest.len() ==> (#[trigger] rest[a]).0 == m[a + 1].0);
        lemma_first_index_none(rest, k);
    }
}

/// The services of one node: service name to port, first-written order,
/// a later write to the same service overwriting the port.
pub open spec fn spec_upsert(svcs: Seq<(Seq<char>, i32)>, s: Seq<char>, p: i32) -> Seq<
    (Seq<char>, i32),
> {
    match first_index(svcs, s) {
        Option::None => svcs.push((s, p)),
        Option::Some(j) => svcs.update(j, (s, p)),
    }
}

/// Adds an empty service table for `name` unless one exists.
pub open spec fn spec_ensure_node(
    m: Seq<(Seq<char>, Seq<(Seq<char>, i32)>)>,
    name: Seq<char>,
) -> Seq<(Seq<char>, Seq<(Seq<char>, i32)>)> {
    match first_index(m, name) {
        Option::None => m.push((name, Seq::empty())),
        Option::Some(_) => m,
    }
}

/// Writes `service -> port` under `node`; a node never seen is left alone,
/// as a service line above any header is.
pub open spec fn spec_set_port(
    m: Seq<(Seq<char>, Seq<(Seq<char>, i32)>)>,
    node: Seq<char>,
    service: Seq<char>,
    port: i32,
) -> Seq<(Seq<char>, Seq<(Seq<char>, i32)>)> {
    match first_index(m, node) {
        Option::None => m,
        Option::Some(i) => m.update(i, (m[i].0, spec_upsert(m[i].1, service, port))),
    }
}

/// The port recorded for `service` under `node`, if any.
pub open spec fn spec_lookup_port(
    m: Seq<(Seq<char>, Seq<(Seq<char>, i32)>)>,
    node: Seq<char>,
    service: Seq<char>,
) -> Option<i32> {
    match first_index(m, node) {
        Option::None => Option::None,
        Option::Some(i) => match first_index(m[i].1, service) {
            Option::None => Option::None,
            Option::Some(j) => Option::Some(m[i].1[j].1),
        },
    }
}

/// The index of the first service entry named `name`, or `None`.
fn svc_index(svcs: &Vec<(String, i32)>, name: &String) -> (r: Option<usize>)
    ensures
        match r {
            Some(j) => j < svcs@.len() && svcs@[j as int].0@ == name@ && (forall|a: int|
                0 <= a < j ==> (#[trigger] svcs@[a]).0@ != name@),
            None => forall|a: int| 0 <= a < svcs@.len() ==> (#[trigger] svcs@[a]).0@ != name@,
        },
{
    let mut j: usize = 0;
    while j < svcs.len()
        invariant
            j <= svcs@.len(),
            forall|a: int| 0 <= a < j ==> (#[trigger] svcs@[a]).0@ != name@,
        decreases svcs@.len() - j,
    {
        if svcs[j].0.eq(name) {
            return Some(j);
        }
        j = j + 1;
    }
    None
}

/// The discovered mapping from node identifier to named services and their
/// listening ports, in first-discovery order.
pub struct NodePortMap {
    pub(crate) nodes: Vec<(String, Vec<(String, i32)>)>,
}

impl NodePortMap {
    /// The node entries and their service tables.
    pub closed spec fn model(&self) -> Seq<(Seq<char>, Seq<(Seq<char>, i32)>)> {
        self.nodes@.map_values(
            |p: (String, Vec<(String, i32)>)|
                (p.0@, p.1@.map_values(|q: (String, i32)| (q.0@, q.1))),
        )
    }

    /// Node keys are unique, and so are the service keys of each node.
    pub open spec fn wf(&self) -> bool {
        &&& forall|a: int, b: int|
            0 <= a < b < self.model().len() ==> (#[trigger] self.model()[a]).0 != (
            #[trigger] self.model()[b]).0
        &&& forall|i: int, a: int, b: int|
            0 <= i < self.model().len() && 0 <= a < b < self.model()[i].1.len() ==> (
            #[trigger] self.model()[i].1[a]).0 != (#[trigger] self.model()[i].1[b]).0
    }

    pub fn new() -> (r: Self)
        ensures
            r.wf(),
            r.model() == Seq::<(Seq<char>, Seq<(Seq<char>, i32)>)>::empty(),
    {
        let r = NodePortMap { nodes: Vec::new() };
        proof {
            assert(r.model() =~= Seq::<(Seq<char>, Seq<(Seq<char>, i32)>)>::empty());
        }
        r
    }

    /// The model has one entry per stored node.
    pub(crate) proof fn lemma_model_len(&self)
        ensures
            self.model().len() == self.nodes@.len(),
    {
    }

    /// The model entry at `i` is the view of the stored entry at `i`.
    pub(crate) proof fn lemma_model_index(&self, i: int)
        requires
            0 <= i < self.nodes@.len(),
        ensures
            self.model()[i] == (
                self.nodes@[i].0@,
                self.nodes@[i].1@.map_values(|q: (String, i32)| (q.0@, q.1)),
            ),
            self.model()[i].1.len() == self.nodes@[i].1@.len(),
            forall|j: int|
                0 <= j < self.nodes@[i].1@.len() ==> #[trigger] self.model()[i].1[j] == (
                self.nodes@[i].1@[j].0@, self.nodes@[i].1@[j].1),
    {
    }

    fn node_index(&self, name: &String) -> (r: Option<usize>)
        ensures
            match r {
                Some(i) => i < self.model().len() && self.model()[i as int].0 == name@,
                None => forall|j: int|
                    0 <= j < self.model().len() ==> (#[trigger] self.model()[j]).0 != name@,
            },
    {
        let mut i: usize = 0;
        while i < self.nodes.len()
            invariant
                i <= self.model().len(),
                forall|j: int| 0 <= j < i ==> (#[trigger] self.model()[j]).0 != name@,
            decreases self.model().len() - i,
        {
            if self.nodes[i].0.eq(name) {
                return Some(i);
            }
            i = i + 1;
        }
        None
    }

    /// Adds `name` with an empty service table unless it is already known.
    pub fn ensure_node(&mut self, name: String)
        requires
            old(self).wf(),
        ensures
            final(self).wf(),
            final(self).model() == spec_ensure_node(old(self).model(), name@),
    {
        let idx = self.node_index(&name);
        match idx {
            Some(i) => {
                proof {
                    lemma_first_index_at(self.model(), name@, i as int);
                }
            },
            None => {
                proof {
                    lemma_first_index_none(old(self).model(), name@);
                }
                let ghost prev = self.model();
                let ghost nm = name@;
                self.nodes.push((name, Vec::new()));
                proof {
                    assert(self.model() =~~= prev.push((nm, Seq::<(Seq<char>, i32)>::empty())));
                }
            },
        }
    }

    /// Writes `service -> port` under `node`; unknown nodes are left alone.
    pub fn set_port(&mut self, node: &String, service: String, port: i32)
        requires
            old(self).wf(),
        ensures
            final(self).wf(),
            final(self).model() == spec_set_port(old(self).model(), node@, service@, port),
    {
        let ghost svv = service@;
        let idx = self.node_index(node);
        match idx {
            None => {
                proof {
                    lemma_first_index_none(self.model(), node@);
                }
            },
            Some(i) => {
                proof {
                    lemma_first_index_at(self.model(), node@, i as int);
                }
                let found = svc_index(&self.nodes[i].1, &service);
                let ghost prev = self.model();
                match found {
                    Some(j) => {
                        let ghost jj = j as int;
                        proof {
                            assert(prev[i as int].1[jj].0 == svv);
                            assert(forall|a: int|
                                0 <= a < prev[i as int].1.len() ==> (#[trigger] prev[i as int].1[a])
                                    == (self.nodes@[i as int].1@[a].0@, self.nodes@[i as int].1@[a].1));
                            lemma_first_index_at(prev[i as int].1, svv, jj);
                        }
                        self.nodes[i].1[j] = (service, port);
                        proof {
                            assert(self.model() =~~= prev.update(
                                i as int,
                                (prev[i as int].0, prev[i as int].1.update(jj, (svv, port))),
                            ));
                            self.lemma_wf_after(prev, i as int, jj, svv, port);
                        }
                    },
                    None => {
                        proof {
                            assert(forall|a: int|
                                0 <= a < prev[i as int].1.len() ==> (#[trigger] prev[i as int].1[a]).0
                                    == self.nodes@[i as int].1@[a].0@);
                            lemma_first_index_none(prev[i as int].1, svv);
                        }
                        self.nodes[i].1.push((service, port));
                        proof {
                            assert(self.model() =~~= prev.update(
                                i as int,
                                (prev[i as int].0, prev[i as int].1.push((svv, port))),
                            ));
                            self.lemma_wf_after_push(prev, i as int, svv, port);
                        }
                    },
                }
            },
        }
    }

    /// After overwriting the port of an existing service, both key
    /// uniqueness invariants still hold.
    proof fn lemma_wf_after(
        &self,
        prev: Seq<(Seq<char>, Seq<(Seq<char>, i32)>)>,
        i: int,
        jj: int,
        svv: Seq<char>,
        port: i32,
    )
        requires
            forall|a: int, b: int| 0 <= a < b < prev.len() ==> (#[trigger] prev[a]).0 != (#[trigger] prev[b]).0,
            forall|x: int, a: int, b: int|
                0 <= x < prev.len() && 0 <= a < b < prev[x].1.len() ==> (#[trigger] prev[x].1[a]).0 != (#[trigger] prev[x].1[b]).0,
            0 <= i < prev.len(),
            0 <= jj < prev[i].1.len(),
            prev[i].1[jj].0 == svv,
            self.model() == prev.update(i, (prev[i].0, prev[i].1.update(jj, (svv, port)))),
        ensures
            self.wf(),
    {
        let m = self.model();
        assert forall|a: int, b: int| 0 <= a < b < m.len() implies (#[trigger] m[a]).0 != (#[trigger] m[b]).0 by {
            assert(m[a].0 == prev[a].0);
            assert(m[b].0 == prev[b].0);
        }
        assert forall|x: int, a: int, b: int|
            0 <= x < m.len() && 0 <= a < b < m[x].1.len() implies (#[trigger] m[x].1[a]).0 != (#[trigger] m[x].1[b]).0 by {
            if x == i {
                assert(m[x].1[a].0 == prev[x].1[a].0);
                assert(m[x].1[b].0 == prev[x].1[b].0);
            } else {
                assert(m[x].1 == prev[x].1);
            }
        }
    }

    /// After recording a service not yet present, both key uniqueness
    /// invariants still hold.
    proof fn lemma_wf_after_push(
        &self,
        prev: Seq<(Seq<char>, Seq<(Seq<char>, i32)>)>,
        i: int,
        svv: Seq<char>,
        port: i32,
    )
        requires
            forall|a: int, b: int| 0 <= a < b < prev.len() ==> (#[trigger] prev[a]).0 != (#[trigger] prev[b]).0,
            forall|x: int, a: int, b: int|
                0 <= x < prev.len() && 0 <= a < b < prev[x].1.len() ==> (#[trigger] prev[x].1[a]).0 != (#[trigger] prev[x].1[b]).0,
            0 <= i < prev.len(),
            forall|a: int| 0 <= a < prev[i].1.len() ==> (#[trigger] prev[i].1[a]).0 != svv,
            self.model() == prev.update(i, (prev[i].0, prev[i].1.push((svv, port)))),
        ensures
            self.wf(),
    {
        let m = self.model();
        assert forall|a: int, b: int| 0 <= a < b < m.len() implies (#[trigger] m[a]).0 != (#[trigger] m[b]).0 by {
            assert(m[a].0 == prev[a].0);
            assert(m[b].0 == prev[b].0);
        }
        assert forall|x: int, a: int, b: int|
            0 <= x < m.len() && 0 <= a < b < m[x].1.len() implies (#[trigger] m[x].1[a]).0 != (#[trigger] m[x].1[b]).0 by {
            if x == i {
                if b == prev[i].1.len() {
                    assert(m[x].1[a].0 == prev[x].1[a].0);
                    assert(m[x].1[b].0 == svv);
                } else {
                    assert(m[x].1[a].0 == prev[x].1[a].0);
                    assert(m[x].1[b].0 == prev[x].1[b].0);
                }
            } else {
                assert(m[x].1 == prev[x].1);
            }
        }
    }

    /// The port recorded for `service` under `node`, if any.
    pub fn get_port(&self, node: &String, service: &String) -> (r: Option<i32>)
        requires
            self.wf(),
        ensures
            r == spec_lookup_port(self.model(), node@, service@),
    {
        let idx = self.node_index(node);
        match idx {
            None => {
                proof {
                    lemma_first_index_none(self.model(), node@);
                }
                None
            },
            Some(i) => {
                proof {
                    lemma_first_index_at(self.model(), node@, i as int);
                }
                let n = self.nodes[i].1.len();
                let mut j: usize = 0;
                while j < n
                    invariant
                        self.wf(),
                        0 <= i < self.nodes@.len(),
                        n == self.model()[i as int].1.len(),
                        j <= n,
                        first_index(self.model(), node@) == Option::Some(i as int),
                        forall|a: int|
                            0 <= a < j ==> (#[trigger] self.model()[i as int].1[a]).0 != service@,
                    decreases n - j,
                {
                    if self.nodes[i].1[j].0.eq(service) {
                        proof {
                            lemma_first_index_at(self.model()[i as int].1, service@, j as int);
                        }
                        return Some(self.nodes[i].1[j].1);
                    }
                    j = j + 1;
                }
                proof {
                    lemma_first_index_none(self.model()[i as int].1, service@);
                }
                None
            },
        }
    }
}

/// A run of digits has a non-negative value.
proof fn lemma_digits_value_nonneg(s: Seq<char>)
    ensures
        digits_value(s) >= 0 || exists|k: int| 0 <= k < s.len() && !is_digit(s[k]),
    decreases s.len(),
{
    if s.len() > 0 {
        lemma_digits_value_nonneg(s.drop_last());
        if digits_value(s) < 0 {
            if is_digit(s.last()) {
                assert(exists|k: int| 0 <= k < s.drop_last().len() && !is_digit(s.drop_last()[k]));
                let k = choose|k: int| 0 <= k < s.drop_last().len() && !is_digit(s.drop_last()[k]);
                assert(!is_digit(s[k]));
            } else {
                assert(!is_digit(s[s.len() - 1]));
            }
        }
    }
}

/// One line of tool output applied to the scan state: a matching header
/// line selects (and records) the current node, a matching service line
/// whose port fits records that port under the current node, and any other
/// line changes nothing.
pub open spec fn spec_scan_step(
    cur: Option<Seq<char>>,
    m: Seq<(Seq<char>, Seq<(Seq<char>, i32)>)>,
    line: Seq<char>,
    tag: Seq<char>,
    service: Seq<char>,
) -> (Option<Seq<char>>, Seq<(Seq<char>, Seq<(Seq<char>, i32)>)>) {
    if header_capture(line, tag) is Some {
        let name = "node-"@ + header_capture(line, tag)->Some_0;
        (Option::Some(name), spec_ensure_node(m, name))
    } else if cur is Some && service_port(line, service) is Some && service_port(line, service)->Some_0
        <= i32::MAX {
        (cur, spec_set_port(m, cur->0, service, service_port(line, service)->Some_0 as i32))
    } else {
        (cur, m)
    }
}

/// The scan state after the lines of one tool's output, in order, starting
/// with no current node and the map `m0`.
pub open spec fn spec_scan(
    lines: Seq<Seq<char>>,
    tag: Seq<char>,
    service: Seq<char>,
    m0: Seq<(Seq<char>, Seq<(Seq<char>, i32)>)>,
) -> (Option<Seq<char>>, Seq<(Seq<char>, Seq<(Seq<char>, i32)>)>)
    decreases lines.len(),
{
    if lines.len() == 0 {
        (Option::None, m0)
    } else {
        let prev = spec_scan(lines.drop_last(), tag, service, m0);
        spec_scan_step(prev.0, prev.1, lines.last(), tag, service)
    }
}

/// Scans one tool's output line by line: each header line matching `tag`
/// records a `node-` entry and makes it current, each service line for
/// `service_name` below it records that port under the current node.
pub fn parse_output(
    output: &str,
    tag: &str,
    service_name: &str,
    ports: &mut NodePortMap,
)
    requires
        old(ports).wf(),
    ensures
        final(ports).wf(),
        final(ports).model() == spec_scan(
            crate::text::spec_split_lines(output@),
            tag@,
            service_name@,
            old(ports).model(),
        ).1,
{
    let lines = crate::text::split_lines(output);
    let ghost lv = lines@.map_values(|e: String| e@);
    let mut cur: Option<String> = None;
    let mut i: usize = 0;
    while i < lines.len()
        invariant
            ports.wf(),
            lv == lines@.map_values(|e: String| e@),
            lv == crate::text::spec_split_lines(output@),
            i <= lv.len(),
            spec_scan(lv.take(i as int), tag@, service_name@, old(ports).model()) == (
                match cur {
                    Option::Some(ref c) => Option::Some(c@),
                    Option::None => Option::<Seq<char>>::None,
                },
                ports.model(),
            ),
        decreases lv.len() - i,
    {
        proof {
            assert(lv.take(i + 1).drop_last() =~= lv.take(i as int));
            assert(lv.take(i + 1).last() == lines@[i as int]@);
        }
        let header = parse_header_line(&lines[i], tag);
        match header {
            Some(digits) => {
                let mut name = String::from_str("node-");
                name.append(digits.as_str());
                ports.ensure_node(name.clone());
                cur = Some(name);
            },
            None => {
                let port = parse_service_line(&lines[i], service_name);
                match port {
                    Some(p) => {
                        match cur {
                            Some(ref c) => {
                                ports.set_port(c, String::from_str(service_name), p);
                            },
                            None => {},
                        }
                    },
                    None => {},
                }
            },
        }
        i = i + 1;
    }
    proof {
        assert(lv.take(lv.len() as int) =~= lv);
    }
}

/// Parses the two cluster-inspection listings into the node-to-service
/// port map: the sidecar listing contributes each node's `MAIN-RPC` port,
/// the node listing its `SSE` port.
pub fn parse_node_ports(sidecar_stdout: &str, node_stdout: &str) -> (r: NodePortMap)
    ensures
        r.wf(),
        r.model() == spec_scan(
            crate::text::spec_split_lines(node_stdout@),
            "CCTL :: NODE-"@,
            "SSE"@,
            spec_scan(
                crate::text::spec_split_lines(sidecar_stdout@),
                "CCTL :: SIDECAR-"@,
                "MAIN-RPC"@,
                Seq::empty(),
            ).1,
        ).1,
{
    let mut ports = NodePortMap::new();
    parse_output(sidecar_stdout, "CCTL :: SIDECAR-", "MAIN-RPC", &mut ports);
    parse_output(node_stdout, "CCTL :: NODE-", "SSE", &mut ports);
    ports
}

} // verus!
