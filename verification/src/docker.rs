//! Containers: which published port belongs to which container, and what the
//! container uses.

use vstd::prelude::*;
use vstd::slice::slice_subrange;
use crate::command;
use crate::command::{success_text, CommandResult, CommandView};
use crate::model;
use crate::model::{DockerInfo, DockerView, Entry, EntryView, Proto};
use crate::number;
use crate::number::read_u32;
use crate::text;
use crate::text::{
    chars_of, last_position_of, matches_at, position_of, position_of_text, same_chars, same_str, spells,
    split_at_char, split_at_char_n, split_lines, string_of, trimmed, without_leading,
    without_trailing,
};

verus! {

// ---------------------------------------------------------------------------
// Port ranges and addresses
// ---------------------------------------------------------------------------

/// The ports that `s` names: one number, or two with a dash between them.
pub open spec fn port_range(s: Seq<char>) -> Option<(u32, u32)> {
    match text::find_char(s, '-') {
        Some(i) => match (number::parse_u32(s.take(i)), number::parse_u32(s.skip(i + 1))) {
            (Some(a), Some(b)) => Some((a, b)),
            _ => None,
        },
        None => match number::parse_u32(s) {
            Some(p) => Some((p, p)),
            None => None,
        },
    }
}

fn read_port_range(s: &[char]) -> (r: Option<(u32, u32)>)
    ensures
        r == port_range(s@),
{
    match position_of(s, '-') {
        Some(i) => {
            let left = slice_subrange(s, 0, i);
            let right = slice_subrange(s, i + 1, s.len());
            assert(left@ =~= s@.take(i as int));
            assert(right@ =~= s@.skip(i + 1));
            match (read_u32(left), read_u32(right)) {
                (Some(a), Some(b)) => Some((a, b)),
                _ => None,
            }
        },
        None => match read_u32(s) {
            Some(p) => Some((p, p)),
            None => None,
        },
    }
}

/// Reads the ports that `s` names.
pub fn parse_port_range(s: &str) -> (r: Option<(u32, u32)>)
    ensures
        r == port_range(s@),
{
    let cs = chars_of(s);
    read_port_range(cs.as_slice())
}

/// An IPv4 address in its own form, where `a` is one in the form that an IPv6
/// socket has for it, such as `::ffff:127.0.0.1`; any other address as it is.
pub open spec fn unmapped(a: Seq<char>) -> Seq<char> {
    if text::stands_at(a, "::ffff:"@, 0) && text::find_char(a.skip(7), '.') is Some {
        a.skip(7)
    } else {
        a
    }
}

/// An address without its zone and its brackets, an IPv4 address in its own
/// form.
pub open spec fn bare_addr(s: Seq<char>) -> Seq<char> {
    let zoneless = match text::find_char(s, '%') {
        Some(i) => s.take(i),
        None => s,
    };
    unmapped(text::trim_end_char(text::trim_start_char(zoneless, '['), ']'))
}

/// Whether a bare address stands for every address of both IP stacks.
pub open spec fn is_both_stacks(a: Seq<char>) -> bool {
    a == "*"@ || a.len() == 0
}

/// Whether a bare address stands for every address of a stack.
pub open spec fn is_wildcard(a: Seq<char>) -> bool {
    is_both_stacks(a) || a == "0.0.0.0"@ || a == "::"@
}

/// Whether a bare address is one of IPv6.
pub open spec fn is_ipv6(a: Seq<char>) -> bool {
    text::find_char(a, ':') is Some
}

/// Whether a bare address is one of IPv4.
pub open spec fn is_ipv4(a: Seq<char>) -> bool {
    !is_ipv6(a) && !is_both_stacks(a)
}

/// Whether a port published on the bare address `published` is what listens
/// on the bare address `listener`: the same address, any address of a stack
/// that is published as a whole, or both stacks where either of them is.
pub open spec fn addr_matches(published: Seq<char>, listener: Seq<char>) -> bool {
    ||| published == listener
    ||| is_both_stacks(published)
    ||| is_both_stacks(listener) && is_wildcard(published)
    ||| published == "0.0.0.0"@ && is_ipv4(listener)
    ||| published == "::"@ && is_ipv6(listener)
}

fn strip_mapping(a: &[char]) -> (r: &[char])
    ensures
        r@ == unmapped(a@),
{
    let prefix = chars_of("::ffff:");
    proof {
        reveal_strlit("::ffff:");
    }
    if matches_at(a, prefix.as_slice(), 0) {
        let rest = slice_subrange(a, 7, a.len());
        assert(rest@ =~= a@.skip(7));
        if position_of(rest, '.').is_some() {
            return rest;
        }
    }
    a
}

/// Takes the zone and the brackets off an address, and writes an IPv4 address
/// in its own form.
pub fn strip_addr(s: &[char]) -> (r: &[char])
    ensures
        r@ == bare_addr(s@),
{
    let zoneless = match position_of(s, '%') {
        Some(i) => {
            let z = slice_subrange(s, 0, i);
            assert(z@ =~= s@.take(i as int));
            z
        },
        None => s,
    };
    strip_mapping(without_trailing(without_leading(zoneless, '['), ']'))
}

fn both_stacks(a: &[char]) -> (r: bool)
    ensures
        r == is_both_stacks(a@),
{
    a.len() == 0 || spells(a, "*")
}

fn wildcard(a: &[char]) -> (r: bool)
    ensures
        r == is_wildcard(a@),
{
    both_stacks(a) || spells(a, "0.0.0.0") || spells(a, "::")
}

fn same_addr(published: &[char], listener: &[char]) -> (r: bool)
    ensures
        r == addr_matches(published@, listener@),
{
    let v6: bool = position_of(listener, ':').is_some();
    same_chars(published, listener) || both_stacks(published) || (both_stacks(listener) && wildcard(
        published,
    )) || (spells(published, "0.0.0.0") && !v6 && !both_stacks(listener)) || (spells(
        published,
        "::",
    ) && v6)
}

// ---------------------------------------------------------------------------
// Published ports
// ---------------------------------------------------------------------------

/// A range of ports that a container publishes.
#[derive(Debug, PartialEq, Eq)]
pub struct Published {
    pub proto: Proto,
    /// The host address, without brackets.
    pub addr: String,
    pub first: u32,
    pub last: u32,
    /// The container, with the port behind `first`.
    pub info: DockerInfo,
}

/// The view of `Published`.
#[verifier::ext_equal]
pub struct PublishedView {
    pub proto: Proto,
    pub addr: Seq<char>,
    pub first: u32,
    pub last: u32,
    pub info: DockerView,
}

impl View for Published {
    type V = PublishedView;

    open spec fn view(&self) -> PublishedView {
        PublishedView {
            proto: self.proto,
            addr: self.addr@,
            first: self.first,
            last: self.last,
            info: self.info@,
        }
    }
}

/// The views of a list of published ranges.
pub open spec fn published_views(v: Seq<Published>) -> Seq<PublishedView> {
    v.map_values(|p: Published| p@)
}

/// The ports that the running containers publish.
#[derive(Debug, PartialEq, Eq)]
pub struct DockerMap {
    pub published: Vec<Published>,
}

impl View for DockerMap {
    type V = Seq<PublishedView>;

    open spec fn view(&self) -> Seq<PublishedView> {
        published_views(self.published@)
    }
}

impl PublishedView {
    /// Whether the range is what listens on `port` at the bare address `addr`.
    pub open spec fn claims(self, proto: Proto, addr: Seq<char>, port: u32) -> bool {
        &&& self.proto == proto
        &&& self.first <= port <= self.last
        &&& addr_matches(self.addr, addr)
    }

    /// The container, with the port behind the host port `port`: as far into
    /// the container's range as `port` is into the host's. The sum wraps
    /// around, as it does in a release build.
    pub open spec fn behind(self, port: u32) -> DockerView {
        DockerView {
            container_port: self.info.container_port.wrapping_add((port - self.first) as u32),
            ..self.info
        }
    }
}

/// The container behind a listener: that of the last range that claims it.
pub open spec fn container_of(
    published: Seq<PublishedView>,
    proto: Proto,
    addr: Seq<char>,
    port: u32,
) -> Option<DockerView>
    decreases published.len(),
{
    if published.len() == 0 {
        None
    } else if published.last().claims(proto, addr, port) {
        Some(published.last().behind(port))
    } else {
        container_of(published.drop_last(), proto, addr, port)
    }
}

impl DockerMap {
    /// No containers.
    pub fn empty() -> (r: DockerMap)
        ensures
            r@ == Seq::<PublishedView>::empty(),
    {
        let r = DockerMap { published: Vec::new() };
        assert(r@ =~= Seq::<PublishedView>::empty());
        r
    }

    /// Finds the container behind a listener at the bare address `addr`.
    pub fn lookup(&self, proto: Proto, addr: &[char], port: u32) -> (r: Option<DockerInfo>)
        ensures
            model::opt_docker(r) == container_of(self@, proto, addr@, port),
    {
        let mut i: usize = self.published.len();
        assert(self@.take(i as int) =~= self@);
        while i > 0
            invariant
                i <= self.published@.len(),
                container_of(self@, proto, addr@, port) == container_of(
                    self@.take(i as int),
                    proto,
                    addr@,
                    port,
                ),
            decreases i,
        {
            i -= 1;
            let p = &self.published[i];
            assert(self@[i as int] == p@);
            assert(self@.take(i + 1).drop_last() =~= self@.take(i as int));
            assert(self@.take(i + 1).last() == p@);
            let paddr = chars_of(p.addr.as_str());
            if p.proto == proto && p.first <= port && port <= p.last && same_addr(
                paddr.as_slice(),
                addr,
            ) {
                let mut info = p.info.clone();
                let offset: u32 = port - p.first;
                info.container_port = info.container_port.wrapping_add(offset);
                assert(info@ =~= p@.behind(port));
                return Some(info);
            }
        }
        None
    }
}

// ---------------------------------------------------------------------------
// The output of `docker ps`
// ---------------------------------------------------------------------------

/// A part of a line that may be missing or blank.
pub open spec fn label_of(parts: Seq<Seq<char>>, i: int) -> Option<Seq<char>> {
    if i < parts.len() && text::trim(parts[i]).len() > 0 {
        Some(text::trim(parts[i]))
    } else {
        None
    }
}

/// A part of a line, or a dash where it is missing.
pub open spec fn part_or_dash(parts: Seq<Seq<char>>, i: int) -> Seq<char> {
    if i < parts.len() {
        parts[i]
    } else {
        "-"@
    }
}

/// The container that a line of `docker ps` is about. The parts of the line
/// are name, ports, working directory, image, age and compose project.
pub open spec fn container_info(parts: Seq<Seq<char>>, container_port: u32) -> DockerView {
    DockerView {
        name: parts[0],
        image: part_or_dash(parts, 3),
        running_for: part_or_dash(parts, 4),
        work_dir: label_of(parts, 2),
        container_port,
        compose_project: label_of(parts, 5),
    }
}

/// The protocol of a published port such as `80/tcp`.
pub open spec fn proto_of(parts: Seq<Seq<char>>) -> Option<Proto> {
    if parts.len() > 1 && parts[1] == "tcp"@ {
        Some(Proto::Tcp)
    } else if parts.len() > 1 && parts[1] == "udp"@ {
        Some(Proto::Udp)
    } else {
        None
    }
}

/// The range that one published port such as `0.0.0.0:8080-8082->80-82/tcp`
/// describes, for the container of the line `parts`.
pub open spec fn published_range(seg: Seq<char>, parts: Seq<Seq<char>>) -> Option<PublishedView> {
    match text::find_text(seg, "->"@) {
        None => None,
        Some(arrow) => {
            let left = seg.take(arrow);
            let right = text::split(seg.skip(arrow + 2), '/');
            match (proto_of(right), text::rfind_char(left, ':')) {
                (Some(proto), Some(colon)) => match port_range(left.skip(colon + 1)) {
                    Some((first, last)) => Some(
                        PublishedView {
                            proto,
                            addr: bare_addr(left.take(colon)),
                            first,
                            last,
                            info: container_info(
                                parts,
                                match port_range(right[0]) {
                                    Some((c, _)) => c,
                                    None => first,
                                },
                            ),
                        },
                    ),
                    None => None,
                },
                _ => None,
            }
        },
    }
}

/// The ranges that the published ports `segs` of a line describe.
pub open spec fn published_ranges(
    segs: Seq<Seq<char>>,
    parts: Seq<Seq<char>>,
) -> Seq<PublishedView>
    decreases segs.len(),
{
    if segs.len() == 0 {
        Seq::empty()
    } else {
        let before = published_ranges(segs.drop_last(), parts);
        match published_range(text::trim(segs.last()), parts) {
            Some(p) => before.push(p),
            None => before,
        }
    }
}

/// The ranges that a line of `docker ps` describes.
pub open spec fn published_line(line: Seq<char>) -> Seq<PublishedView> {
    let parts = text::splitn(line, '\t', 6);
    if parts.len() < 2 {
        Seq::empty()
    } else {
        published_ranges(text::split(parts[1], ','), parts)
    }
}

/// The ranges that the lines of `docker ps` describe.
pub open spec fn published_lines(lines: Seq<Seq<char>>) -> Seq<PublishedView>
    decreases lines.len(),
{
    if lines.len() == 0 {
        Seq::empty()
    } else {
        published_lines(lines.drop_last()) + published_line(lines.last())
    }
}

proof fn lemma_published_push(v: Seq<Published>, p: Published)
    ensures
        published_views(v.push(p)) == published_views(v).push(p@),
{
    assert(published_views(v.push(p)) =~= published_views(v).push(p@));
}

/// Reads a part of a line that may be missing or blank.
fn read_label(parts: &Vec<&[char]>, i: usize) -> (r: Option<String>)
    ensures
        model::opt_view(r) == label_of(text::pieces(parts@), i as int),
{
    if i < parts.len() {
        assert(text::pieces(parts@)[i as int] == parts@[i as int]@);
        let t = trimmed(parts[i]);
        if t.len() > 0 {
            return Some(string_of(t));
        }
    }
    None
}

/// Reads a part of a line, or a dash where it is missing.
fn read_part(parts: &Vec<&[char]>, i: usize) -> (r: String)
    ensures
        r@ == part_or_dash(text::pieces(parts@), i as int),
{
    if i < parts.len() {
        assert(text::pieces(parts@)[i as int] == parts@[i as int]@);
        string_of(parts[i])
    } else {
        "-".to_owned()
    }
}

/// Reads one published port of a line.
fn read_published(seg: &[char], parts: &Vec<&[char]>) -> (r: Option<Published>)
    requires
        parts@.len() > 0,
    ensures
        match r {
            Some(p) => published_range(seg@, text::pieces(parts@)) == Some(p@),
            None => published_range(seg@, text::pieces(parts@)) is None,
        },
{
    let arrow: usize = match position_of_text(seg, "->") {
        Some(i) => i,
        None => {
            return None;
        },
    };
    proof {
        reveal_strlit("->");
    }
    let left = slice_subrange(seg, 0, arrow);
    let after = slice_subrange(seg, arrow + 2, seg.len());
    assert(left@ =~= seg@.take(arrow as int));
    assert(after@ =~= seg@.skip(arrow + 2));
    let right = split_at_char(after, '/');
    let ghost rights = text::split(after@, '/');
    assert(text::pieces(right@).len() == right@.len());
    assert(rights.len() > 0);
    assert(right@[0]@ == rights[0]);
    let proto: Proto = if right.len() > 1 {
        assert(right@[1]@ == rights[1]);
        if spells(right[1], "tcp") {
            Proto::Tcp
        } else if spells(right[1], "udp") {
            Proto::Udp
        } else {
            return None;
        }
    } else {
        return None;
    };
    proof {
        reveal_strlit("tcp");
        reveal_strlit("udp");
        assert("tcp"@[0] == 't' && "udp"@[0] == 'u');
    }
    let colon: usize = match last_position_of(left, ':') {
        Some(i) => i,
        None => {
            return None;
        },
    };
    let host = slice_subrange(left, 0, colon);
    let port = slice_subrange(left, colon + 1, left.len());
    assert(host@ =~= left@.take(colon as int));
    assert(port@ =~= left@.skip(colon + 1));
    match read_port_range(port) {
        None => None,
        Some((first, last)) => {
            let container_port: u32 = match read_port_range(right[0]) {
                Some((c, _)) => c,
                None => first,
            };
            assert(text::pieces(parts@)[0] == parts@[0]@);
            let info = DockerInfo {
                name: string_of(parts[0]),
                image: read_part(parts, 3),
                running_for: read_part(parts, 4),
                work_dir: read_label(parts, 2),
                container_port,
                compose_project: read_label(parts, 5),
            };
            let p = Published { proto, addr: string_of(strip_addr(host)), first, last, info };
            assert(p.info@ =~= container_info(text::pieces(parts@), container_port));
            Some(p)
        },
    }
}

/// Reads the output of `docker ps`.
pub fn read_docker_ps(stdout: &str) -> (r: DockerMap)
    ensures
        r@ == published_lines(text::lines(stdout@)),
{
    let cs = chars_of(stdout);
    let lines = split_lines(cs.as_slice());
    let ghost all = text::lines(stdout@);
    let mut out: Vec<Published> = Vec::new();
    let mut i: usize = 0;
    assert(all.take(0) =~= Seq::<Seq<char>>::empty());
    assert(published_views(out@) =~= Seq::<PublishedView>::empty());
    while i < lines.len()
        invariant
            i <= lines@.len(),
            all == text::pieces(lines@),
            published_views(out@) == published_lines(all.take(i as int)),
        decreases lines@.len() - i,
    {
        let line = lines[i];
        assert(all[i as int] == line@);
        assert(all.take(i + 1).drop_last() =~= all.take(i as int));
        assert(all.take(i + 1).last() == line@);
        let parts = split_at_char_n(line, '\t', 6);
        let ghost ps = text::pieces(parts@);
        let ghost before = published_views(out@);
        assert(ps.len() == parts@.len());
        if parts.len() >= 2 {
            assert(ps[1] == parts@[1]@);
            let segs = split_at_char(parts[1], ',');
            let ghost ss = text::pieces(segs@);
            let mut k: usize = 0;
            assert(ss.take(0) =~= Seq::<Seq<char>>::empty());
            while k < segs.len()
                invariant
                    k <= segs@.len(),
                    parts@.len() >= 2,
                    ss == text::pieces(segs@),
                    ps == text::pieces(parts@),
                    published_views(out@) =~= before + published_ranges(ss.take(k as int), ps),
                decreases segs@.len() - k,
            {
                assert(ss[k as int] == segs@[k as int]@);
                assert(ss.take(k + 1).drop_last() =~= ss.take(k as int));
                assert(ss.take(k + 1).last() == segs@[k as int]@);
                if let Some(p) = read_published(trimmed(segs[k]), &parts) {
                    proof {
                        lemma_published_push(out@, p);
                    }
                    out.push(p);
                }
                k += 1;
            }
            assert(ss.take(k as int) =~= ss);
        }
        assert(published_views(out@) =~= before + published_line(line@));
        i += 1;
    }
    assert(all.take(i as int) =~= all);
    DockerMap { published: out }
}

/// The ports that `docker ps` tells of; none if there is no working Docker.
pub open spec fn published_by(r: CommandView) -> Seq<PublishedView> {
    match command::written_on_success(r) {
        Some(t) => published_lines(text::lines(t)),
        None => Seq::empty(),
    }
}

/// Reads what came of `docker ps`.
pub fn load_docker_ports(result: &CommandResult) -> (r: DockerMap)
    ensures
        r@ == published_by(result@),
{
    match success_text(result) {
        Some(t) => read_docker_ps(t.as_str()),
        None => DockerMap::empty(),
    }
}

/// A listener has a container exactly where a published range claims its
/// protocol, address and port, and the container is one that does.
pub proof fn law_container_claims_its_listener(
    published: Seq<PublishedView>,
    proto: Proto,
    addr: Seq<char>,
    port: u32,
)
    ensures
        match container_of(published, proto, addr, port) {
            Some(d) => exists|i: int|
                0 <= i < published.len() && (#[trigger] published[i]).claims(proto, addr, port)
                    && d == published[i].behind(port),
            None => forall|i: int|
                0 <= i < published.len() ==> !(#[trigger] published[i]).claims(proto, addr, port),
        },
    decreases published.len(),
{
    if published.len() > 0 && !published.last().claims(proto, addr, port) {
        let early = published.drop_last();
        law_container_claims_its_listener(early, proto, addr, port);
        match container_of(early, proto, addr, port) {
            Some(d) => {
                let i = choose|i: int|
                    0 <= i < early.len() && (#[trigger] early[i]).claims(proto, addr, port) && d
                        == early[i].behind(port);
                assert(published[i] == early[i]);
            },
            None => {
                assert forall|i: int| 0 <= i < published.len() implies !(
                #[trigger] published[i]).claims(proto, addr, port) by {
                    if i < early.len() {
                        assert(early[i] == published[i]);
                    }
                }
            },
        }
    } else if published.len() > 0 {
        assert(published[published.len() - 1].claims(proto, addr, port));
    }
}

/// A container published on one host address never claims a listener on
/// another: where the published address is no wildcard, only a listener on
/// that very address is claimed.
pub proof fn law_one_address_claims_no_other(
    p: PublishedView,
    proto: Proto,
    addr: Seq<char>,
    port: u32,
)
    requires
        !is_wildcard(p.addr),
        p.claims(proto, addr, port),
    ensures
        addr == p.addr,
{
}

/// A container published on every address of one IP stack claims each
/// listener on that stack, and none on an address of the other.
pub proof fn law_one_stack_claims_no_other(
    p: PublishedView,
    proto: Proto,
    addr: Seq<char>,
    port: u32,
)
    requires
        p.proto == proto,
        p.first <= port <= p.last,
        !is_both_stacks(addr),
    ensures
        p.addr == "0.0.0.0"@ ==> (p.claims(proto, addr, port) <==> is_ipv4(addr)),
        p.addr == "::"@ ==> (p.claims(proto, addr, port) <==> is_ipv6(addr)),
{
    reveal_strlit("0.0.0.0");
    reveal_strlit("::");
    reveal_strlit("*");
    assert("0.0.0.0"@.len() == 7 && "::"@.len() == 2 && "*"@.len() == 1);
    text::lemma_find_char("0.0.0.0"@, ':');
    text::lemma_find_char("::"@, ':');
    assert("::"@[0] == ':');
}

// ---------------------------------------------------------------------------
// Uptime and usage of containers
// ---------------------------------------------------------------------------

/// `s` without the copies of `suffix` that it ends in.
pub open spec fn trim_suffixes(s: Seq<char>, suffix: Seq<char>) -> Seq<char>
    decreases s.len(),
{
    if suffix.len() > 0 && s.len() >= suffix.len() && s.skip(s.len() - suffix.len()) == suffix {
        trim_suffixes(s.take(s.len() - suffix.len()), suffix)
    } else {
        s
    }
}

/// A container's row with its uptime: its age without `ago`.
pub open spec fn with_docker_uptime(e: EntryView) -> EntryView {
    match e.docker {
        Some(d) => EntryView {
            stats: model::StatsView {
                uptime: trim_suffixes(d.running_for, " ago"@),
                ..e.stats
            },
            ..e
        },
        None => e,
    }
}

fn without_suffixes<'a>(s: &'a [char], suffix: &str) -> (r: &'a [char])
    ensures
        r@ == trim_suffixes(s@, suffix@),
{
    let w = chars_of(suffix);
    let n: usize = w.len();
    let mut i: usize = s.len();
    assert(s@.take(i as int) =~= s@);
    while n > 0 && i >= n && same_chars(slice_subrange(s, i - n, i), w.as_slice())
        invariant
            n == w@.len(),
            w@ == suffix@,
            i <= s@.len(),
            trim_suffixes(s@, suffix@) == trim_suffixes(s@.take(i as int), suffix@),
        decreases i,
    {
        proof {
            let t = s@.take(i as int);
            assert(t.skip(t.len() - n) =~= s@.subrange(i - n, i as int));
            assert(t.take(t.len() - n) =~= s@.take(i - n));
        }
        i -= n;
    }
    proof {
        let t = s@.take(i as int);
        if n > 0 && i >= n {
            assert(t.skip(t.len() - n) =~= s@.subrange(i - n, i as int));
        }
    }
    slice_subrange(s, 0, i)
}

/// Gives every container's row its uptime.
pub fn set_docker_uptime(entries: &mut Vec<Entry>)
    ensures
        model::views(final(entries)@) == model::views(old(entries)@).map_values(
            |e: EntryView| with_docker_uptime(e),
        ),
{
    let ghost before = model::views(entries@);
    let n: usize = entries.len();
    let mut i: usize = 0;
    while i < n
        invariant
            n == entries@.len(),
            n == before.len(),
            i <= n,
            forall|k: int| 0 <= k < i ==> (#[trigger] entries@[k])@ == with_docker_uptime(before[k]),
            forall|k: int| i <= k < n ==> (#[trigger] entries@[k])@ == before[k],
        decreases n - i,
    {
        let ghost old_e = entries@[i as int]@;
        let uptime: Option<String> = match &entries[i].docker {
            Some(d) => {
                let cs = chars_of(d.running_for.as_str());
                Some(string_of(without_suffixes(cs.as_slice(), " ago")))
            },
            None => None,
        };
        if let Some(u) = uptime {
            let e = &mut entries[i];
            e.stats.uptime = u;
        }
        assert(entries@[i as int]@ =~= with_docker_uptime(old_e));
        i += 1;
    }
    assert(model::views(entries@) =~= before.map_values(|e: EntryView| with_docker_uptime(e)));
}

/// The names of the containers behind `entries`, each once, in order.
pub open spec fn names_of(entries: Seq<EntryView>) -> Seq<Seq<char>>
    decreases entries.len(),
{
    if entries.len() == 0 {
        Seq::empty()
    } else {
        let before = names_of(entries.drop_last());
        match entries.last().docker {
            Some(d) => if before.contains(d.name) {
                before
            } else {
                before.push(d.name)
            },
            None => before,
        }
    }
}

/// Whether `name` is in `v`.
fn has_text(v: &Vec<String>, name: &str) -> (r: bool)
    ensures
        r == model::texts(v@).contains(name@),
{
    let mut i: usize = 0;
    while i < v.len()
        invariant
            i <= v@.len(),
            forall|k: int| 0 <= k < i ==> (#[trigger] model::texts(v@)[k]) != name@,
        decreases v@.len() - i,
    {
        assert(model::texts(v@)[i as int] == v@[i as int]@);
        if same_str(v[i].as_str(), name) {
            return true;
        }
        i += 1;
    }
    false
}

/// Lists the containers behind `entries`, whose usage is asked for.
pub fn container_names(entries: &Vec<Entry>) -> (out: Vec<String>)
    ensures
        model::texts(out@) == names_of(model::views(entries@)),
{
    let ghost es = model::views(entries@);
    let mut out: Vec<String> = Vec::new();
    let mut i: usize = 0;
    assert(es.take(0) =~= Seq::<EntryView>::empty());
    assert(model::texts(out@) =~= Seq::<Seq<char>>::empty());
    while i < entries.len()
        invariant
            i <= entries@.len(),
            es == model::views(entries@),
            model::texts(out@) == names_of(es.take(i as int)),
        decreases entries@.len() - i,
    {
        assert(es[i as int] == entries@[i as int]@);
        assert(es.take(i + 1).drop_last() =~= es.take(i as int));
        assert(es.take(i + 1).last() == es[i as int]);
        if let Some(d) = &entries[i].docker {
            if !has_text(&out, d.name.as_str()) {
                let name = d.name.clone();
                proof {
                    model::lemma_texts_push(out@, name);
                }
                out.push(name);
            }
        }
        i += 1;
    }
    assert(es.take(i as int) =~= es);
    out
}

/// The name on the list of usage is there once.
pub proof fn law_names_are_asked_for_once(entries: Seq<EntryView>)
    ensures
        names_of(entries).no_duplicates(),
        forall|i: int|
            0 <= i < entries.len() && (#[trigger] entries[i]).docker is Some ==> names_of(
                entries,
            ).contains(entries[i].docker.unwrap().name),
    decreases entries.len(),
{
    if entries.len() > 0 {
        let early = entries.drop_last();
        law_names_are_asked_for_once(early);
        let before = names_of(early);
        let now = names_of(entries);
        assert forall|x: Seq<char>| before.contains(x) implies now.contains(x) by {
            let k = choose|k: int| 0 <= k < before.len() && before[k] == x;
            assert(now[k] == x);
        }
        assert forall|i: int|
            0 <= i < entries.len() && (#[trigger] entries[i]).docker is Some implies now.contains(
            entries[i].docker.unwrap().name,
        ) by {
            if i < early.len() {
                assert(early[i] == entries[i]);
            } else if !before.contains(entries[i].docker.unwrap().name) {
                assert(now[before.len() as int] == entries[i].docker.unwrap().name);
            }
        }
    }
}

/// The names that are still among the running containers `lines`.
pub open spec fn names_running(names: Seq<Seq<char>>, lines: Seq<Seq<char>>) -> Seq<Seq<char>> {
    names.filter(|n: Seq<char>| lines.contains(n))
}

/// Keeps the containers that still run, for the one retry after a container
/// has disappeared between listing and asking. `running` is what
/// `docker ps --format {{.Names}}` printed.
pub fn still_running(names: &Vec<String>, running: &str) -> (out: Vec<String>)
    ensures
        model::texts(out@) == names_running(model::texts(names@), text::lines(running@)),
{
    let cs = chars_of(running);
    let lines = split_lines(cs.as_slice());
    let ghost ls = text::lines(running@);
    let ghost all = model::texts(names@);
    let ghost keep = |n: Seq<char>| ls.contains(n);
    let mut out: Vec<String> = Vec::new();
    let mut i: usize = 0;
    reveal(Seq::filter);
    assert(all.take(0) =~= Seq::<Seq<char>>::empty());
    assert(model::texts(out@) =~= Seq::<Seq<char>>::empty());
    while i < names.len()
        invariant
            i <= names@.len(),
            all == model::texts(names@),
            ls == text::pieces(lines@),
            keep == (|n: Seq<char>| ls.contains(n)),
            model::texts(out@) == all.take(i as int).filter(keep),
        decreases names@.len() - i,
    {
        reveal(Seq::filter);
        assert(all.take(i + 1).drop_last() =~= all.take(i as int));
        assert(all.take(i + 1).last() == names@[i as int]@);
        let mut found: bool = false;
        let mut k: usize = 0;
        while k < lines.len()
            invariant
                k <= lines@.len(),
                i < names@.len(),
                ls == text::pieces(lines@),
                found ==> ls.contains(names@[i as int]@),
                !found ==> forall|j: int| 0 <= j < k ==> (#[trigger] ls[j]) != names@[i as int]@,
            decreases lines@.len() - k,
        {
            assert(ls[k as int] == lines@[k as int]@);
            if spells(lines[k], names[i].as_str()) {
                found = true;
            }
            k += 1;
        }
        if found {
            let name = names[i].clone();
            proof {
                model::lemma_texts_push(out@, name);
            }
            out.push(name);
        }
        i += 1;
    }
    assert(all.take(i as int) =~= all);
    out
}

/// The containers to ask for once more: `docker stats` refuses to answer if
/// one of them has gone, so after a failure the rest is asked for, if there
/// is a rest and it is not all of them.
pub open spec fn to_retry(
    names: Seq<Seq<char>>,
    stats: CommandView,
    running: CommandView,
) -> Option<Seq<Seq<char>>> {
    match (command::written_on_success(stats), command::written_on_success(running)) {
        (None, Some(t)) => {
            let rest = names_running(names, text::lines(t));
            if 0 < rest.len() < names.len() {
                Some(rest)
            } else {
                None
            }
        },
        _ => None,
    }
}

/// Finds the containers to ask for once more. `stats` is what came of
/// `docker stats` and `running` of `docker ps --format {{.Names}}` after it.
pub fn retry_names(names: &Vec<String>, stats: &CommandResult, running: &CommandResult) -> (r: Option<
    Vec<String>,
>)
    ensures
        match r {
            Some(v) => to_retry(model::texts(names@), stats@, running@) == Some(model::texts(v@)),
            None => to_retry(model::texts(names@), stats@, running@) is None,
        },
{
    if success_text(stats).is_some() {
        return None;
    }
    match success_text(running) {
        Some(t) => {
            let rest = still_running(names, t.as_str());
            assert(model::texts(rest@).len() == rest@.len());
            if 0 < rest.len() && rest.len() < names.len() {
                Some(rest)
            } else {
                None
            }
        },
        None => None,
    }
}

/// The CPU and memory use that a line of `docker stats` states for `name`.
pub open spec fn usage_in(line: Seq<char>, name: Seq<char>) -> Option<(Seq<char>, Seq<char>)> {
    let parts = text::splitn(line, '\t', 3);
    if parts.len() >= 3 && parts[0] == name {
        Some((parts[1], text::trim(text::split(parts[2], '/')[0])))
    } else {
        None
    }
}

/// The CPU and memory use of `name`: that of the last line that states it.
pub open spec fn usage_of(lines: Seq<Seq<char>>, name: Seq<char>) -> Option<
    (Seq<char>, Seq<char>),
>
    decreases lines.len(),
{
    if lines.len() == 0 {
        None
    } else {
        match usage_in(lines.last(), name) {
            Some(u) => Some(u),
            None => usage_of(lines.drop_last(), name),
        }
    }
}

/// A container's row with its CPU and memory use, where they are known.
pub open spec fn with_usage(e: EntryView, lines: Seq<Seq<char>>) -> EntryView {
    match e.docker {
        Some(d) => match usage_of(lines, d.name) {
            Some((cpu, mem)) => EntryView {
                stats: model::StatsView { cpu, mem, ..e.stats },
                ..e
            },
            None => e,
        },
        None => e,
    }
}

fn find_usage(lines: &Vec<&[char]>, name: &str) -> (r: Option<(String, String)>)
    ensures
        match r {
            Some((cpu, mem)) => usage_of(text::pieces(lines@), name@) == Some((cpu@, mem@)),
            None => usage_of(text::pieces(lines@), name@) is None,
        },
{
    let ghost all = text::pieces(lines@);
    let mut i: usize = lines.len();
    assert(all.take(i as int) =~= all);
    while i > 0
        invariant
            i <= lines@.len(),
            all == text::pieces(lines@),
            usage_of(all, name@) == usage_of(all.take(i as int), name@),
        decreases i,
    {
        i -= 1;
        let line = lines[i];
        assert(all.take(i + 1).drop_last() =~= all.take(i as int));
        assert(all.take(i + 1).last() == line@);
        let parts = split_at_char_n(line, '\t', 3);
        let ghost ps = text::pieces(parts@);
        assert(ps.len() == parts@.len());
        if parts.len() >= 3 {
            assert(ps[0] == parts@[0]@ && ps[1] == parts@[1]@ && ps[2] == parts@[2]@);
            if spells(parts[0], name) {
                let mem = split_at_char(parts[2], '/');
                assert(text::pieces(mem@).len() == mem@.len());
                assert(text::pieces(mem@)[0] == mem@[0]@);
                return Some((string_of(parts[1]), string_of(trimmed(mem[0]))));
            }
        }
    }
    None
}

/// Gives every container's row the CPU and memory use that the output of
/// `docker stats` states for it.
pub fn apply_docker_stats(entries: &mut Vec<Entry>, stdout: &str)
    ensures
        model::views(final(entries)@) == model::views(old(entries)@).map_values(
            |e: EntryView| with_usage(e, text::lines(stdout@)),
        ),
{
    let cs = chars_of(stdout);
    let lines = split_lines(cs.as_slice());
    let ghost ls = text::lines(stdout@);
    let ghost before = model::views(entries@);
    let n: usize = entries.len();
    let mut i: usize = 0;
    while i < n
        invariant
            n == entries@.len(),
            n == before.len(),
            i <= n,
            ls == text::pieces(lines@),
            forall|k: int| 0 <= k < i ==> (#[trigger] entries@[k])@ == with_usage(before[k], ls),
            forall|k: int| i <= k < n ==> (#[trigger] entries@[k])@ == before[k],
        decreases n - i,
    {
        let ghost old_e = entries@[i as int]@;
        let usage: Option<(String, String)> = match &entries[i].docker {
            Some(d) => find_usage(&lines, d.name.as_str()),
            None => None,
        };
        if let Some((cpu, mem)) = usage {
            let e = &mut entries[i];
            e.stats.cpu = cpu;
            e.stats.mem = mem;
        }
        assert(entries@[i as int]@ =~= with_usage(old_e, ls));
        i += 1;
    }
    assert(model::views(entries@) =~= before.map_values(|e: EntryView| with_usage(e, ls)));
}

/// Gives every container's row the CPU and memory use that `docker stats`
/// states for it. A `docker stats` that failed changes nothing.
pub fn enrich_docker_stats(entries: &mut Vec<Entry>, result: &CommandResult)
    ensures
        match command::written_on_success(result@) {
            Some(t) => model::views(final(entries)@) == model::views(old(entries)@).map_values(
                |e: EntryView| with_usage(e, text::lines(t)),
            ),
            None => final(entries)@ == old(entries)@,
        },
{
    if let Some(t) = success_text(result) {
        apply_docker_stats(entries, t.as_str());
    }
}

} // verus!
