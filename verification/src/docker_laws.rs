//! What holds of reading `docker ps` and `docker stats`: whatever is written
//! about a container is found again.

use vstd::prelude::*;
use crate::docker;
use crate::docker::PublishedView;
use crate::model::{DockerView, EntryView, Proto};
use crate::number;
use crate::socket_laws;
use crate::stats_laws;
use crate::text;
use crate::text_laws;

verus! {

// ---------------------------------------------------------------------------
// Published ports
// ---------------------------------------------------------------------------

/// A range of ports as it is written: one number, or two with a dash.
pub open spec fn range_text(first: u32, last: u32) -> Seq<char> {
    if first == last {
        number::decimal(first as nat)
    } else {
        number::decimal(first as nat) + seq!['-'] + number::decimal(last as nat)
    }
}

/// A range is read back.
pub proof fn law_range_reads_back(first: u32, last: u32)
    ensures
        docker::port_range(range_text(first, last)) == Some((first, last)),
        docker::port_range(
            number::decimal(first as nat) + seq!['-'] + number::decimal(last as nat),
        ) == Some((first, last)),
{
    let (a, b) = (number::decimal(first as nat), number::decimal(last as nat));
    socket_laws::lemma_decimal_lacks(first as nat, '-');
    text_laws::law_numbers_read_back(first as nat);
    text_laws::law_numbers_read_back(last as nat);
    text_laws::lemma_none(a, '-');
    text_laws::lemma_first(a, '-', b);
}

/// A published range as it is written.
#[verifier::ext_equal]
pub struct Publish {
    pub proto: Proto,
    pub host: Seq<char>,
    pub first: u32,
    pub last: u32,
    pub inner_first: u32,
    pub inner_last: u32,
}

impl Publish {
    /// The text in front of the arrow.
    pub open spec fn outer(self) -> Seq<char> {
        self.host + seq![':'] + range_text(self.first, self.last)
    }

    /// The text behind the arrow.
    pub open spec fn inner(self) -> Seq<char> {
        range_text(self.inner_first, self.inner_last) + seq!['/'] + self.proto.label()
    }

    /// The range in the ports column, such as `0.0.0.0:8080->80/tcp`.
    pub open spec fn text(self) -> Seq<char> {
        self.outer() + "->"@ + self.inner()
    }

    /// Whether the host can be told from the rest of the column.
    pub open spec fn fits(self) -> bool {
        forall|i: int|
            0 <= i < self.host.len() ==> !text::is_space(#[trigger] self.host[i]) && self.host[i]
                != ',' && self.host[i] != '>'
    }
}

proof fn lemma_range_lacks(first: u32, last: u32, c: char)
    requires
        !('0' <= c <= '9'),
        c != '-',
    ensures
        !range_text(first, last).contains(c),
        range_text(first, last).len() > 0,
{
    socket_laws::lemma_decimal_lacks(first as nat, c);
    socket_laws::lemma_decimal_lacks(last as nat, c);
    stats_laws::lemma_lacks_join(
        number::decimal(first as nat),
        '-',
        number::decimal(last as nat),
        c,
    );
}

proof fn lemma_label_lacks(proto: Proto, c: char)
    requires
        c == ',' || c == '/' || c == '\t' || c == '>' || text::is_space(c),
    ensures
        !proto.label().contains(c),
        proto.label().len() == 3,
{
    reveal_strlit("tcp");
    reveal_strlit("udp");
    let l = proto.label();
    assert(l.len() == 3);
    if l.contains(c) {
        let i = choose|i: int| 0 <= i < l.len() && l[i] == c;
        assert(i == 0 || i == 1 || i == 2);
    }
}

/// Each range of the ports column is read back with its protocol, its
/// address, its ports and the port inside the container.
pub proof fn law_published_range_reads_back(p: Publish, parts: Seq<Seq<char>>)
    requires
        p.fits(),
    ensures
        docker::published_range(p.text(), parts) is Some,
        ({
            let r = docker::published_range(p.text(), parts).unwrap();
            &&& r.proto == p.proto
            &&& r.addr == docker::bare_addr(p.host)
            &&& r.first == p.first && r.last == p.last
            &&& r.info.container_port == p.inner_first
            &&& r.info == docker::container_info(parts, p.inner_first)
        }),
{
    let s = p.text();
    let (outer, inner) = (p.outer(), p.inner());
    reveal_strlit("->");
    lemma_range_lacks(p.first, p.last, '>');
    lemma_range_lacks(p.first, p.last, ':');
    lemma_range_lacks(p.inner_first, p.inner_last, '/');
    let n = outer.len() as int;
    text::lemma_find_from(s, "->"@, 0);
    assert(s.subrange(n, n + 2) =~= "->"@);
    assert(text::stands_at(s, "->"@, n));
    assert(!p.host.contains('>')) by {
        if p.host.contains('>') {
            let i = choose|i: int| 0 <= i < p.host.len() && p.host[i] == '>';
            assert(p.host[i] != '>');
        }
    }
    stats_laws::lemma_lacks_join(p.host, ':', range_text(p.first, p.last), '>');
    assert forall|j: int| 0 <= j < n implies !text::stands_at(s, "->"@, j) by {
        if text::stands_at(s, "->"@, j) {
            assert(s.subrange(j, j + 2)[1] == s[j + 1]);
            assert("->"@[1] == '>');
            if j + 1 < n {
                assert(outer[j + 1] == '>');
                assert(outer.contains('>'));
            } else {
                assert(s[n] == '-');
            }
        }
    }
    assert(text::find_text(s, "->"@) == Some(n));
    assert(s.take(n) =~= outer);
    assert(s.skip(n + 2) =~= inner);
    text_laws::lemma_last(p.host, ':', range_text(p.first, p.last));
    law_range_reads_back(p.first, p.last);
    law_range_reads_back(p.inner_first, p.inner_last);
    lemma_label_lacks(p.proto, '/');
    let ps = seq![range_text(p.inner_first, p.inner_last), p.proto.label()];
    assert(ps.skip(1) =~= seq![p.proto.label()]);
    assert(text_laws::joined_by(ps.skip(1), '/') == p.proto.label());
    assert(text_laws::joined_by(ps, '/') == inner);
    text_laws::law_split_reads_back(ps, '/');
    reveal_strlit("tcp");
    reveal_strlit("udp");
    assert("tcp"@[0] == 't' && "udp"@[0] == 'u');
}

/// The texts of published ranges, a space in front of all but the first.
pub open spec fn segments(ps: Seq<Publish>) -> Seq<Seq<char>> {
    Seq::new(
        ps.len(),
        |i: int|
            if i == 0 {
                ps[i].text()
            } else {
                seq![' '] + ps[i].text()
            },
    )
}

proof fn lemma_publish_chars(p: Publish)
    requires
        p.fits(),
    ensures
        !p.text().contains(','),
        !p.text().contains('\t'),
        p.text().len() > 0,
        !text::is_space(p.text()[0]),
        !text::is_space(p.text().last()),
{
    reveal_strlit("->");
    let s = p.text();
    let (a, b) = (range_text(p.first, p.last), range_text(p.inner_first, p.inner_last));
    let l = p.proto.label();
    assert forall|c: char| c == ',' || c == '\t' implies !s.contains(c) by {
        lemma_range_lacks(p.first, p.last, c);
        lemma_range_lacks(p.inner_first, p.inner_last, c);
        lemma_label_lacks(p.proto, c);
        if s.contains(c) {
            let i = choose|i: int| 0 <= i < s.len() && s[i] == c;
            let h = p.host.len() as int;
            let n = h + 1 + a.len();
            let m = n + 2 + b.len();
            if i < h {
                assert(p.host[i] == c);
            } else if h < i < n {
                assert(a[i - h - 1] == c);
            } else if n + 2 <= i < m {
                assert(b[i - n - 2] == c);
            } else if m < i {
                assert(l[i - m - 1] == c);
            }
        }
    }
    lemma_label_lacks(p.proto, ' ');
    reveal_strlit("tcp");
    reveal_strlit("udp");
    assert(s.last() == l[2]);
    assert(s[0] == if p.host.len() > 0 {
        p.host[0]
    } else {
        ':'
    });
}

proof fn lemma_ranges_read_back(ps: Seq<Publish>, parts: Seq<Seq<char>>, n: int)
    requires
        0 <= n <= ps.len(),
        forall|i: int| 0 <= i < ps.len() ==> (#[trigger] ps[i]).fits(),
    ensures
        docker::published_ranges(segments(ps).take(n), parts).len() == n,
        forall|i: int|
            0 <= i < n ==> Some(#[trigger] docker::published_ranges(segments(ps).take(n), parts)[i])
                == docker::published_range(ps[i].text(), parts),
    decreases n,
{
    let segs = segments(ps);
    if n > 0 {
        lemma_ranges_read_back(ps, parts, n - 1);
        assert(segs.take(n).drop_last() =~= segs.take(n - 1));
        let p = ps[n - 1];
        assert(segs.take(n).last() == segs[n - 1]);
        law_published_range_reads_back(p, parts);
        lemma_publish_chars(p);
        let gap = if n == 1 {
            Seq::<char>::empty()
        } else {
            seq![' ']
        };
        text_laws::law_trim(gap, p.text(), Seq::empty());
        assert(gap + p.text() + Seq::<char>::empty() =~= segs[n - 1]);
        let before = docker::published_ranges(segs.take(n - 1), parts);
        let now = docker::published_ranges(segs.take(n), parts);
        assert forall|i: int| 0 <= i < n implies Some(#[trigger] now[i])
            == docker::published_range(ps[i].text(), parts) by {
            if i < n - 1 {
                assert(now[i] == before[i]);
            }
        }
    }
}

/// A line of `docker ps`: name, ports, working directory, image, age and
/// compose project, with a tab between each two.
pub open spec fn container_line(
    name: Seq<char>,
    ps: Seq<Publish>,
    dir: Seq<char>,
    image: Seq<char>,
    age: Seq<char>,
    project: Seq<char>,
) -> Seq<char> {
    text_laws::joined_by(
        seq![name, text_laws::joined_by(segments(ps), ','), dir, image, age, project],
        '\t',
    )
}

/// Every range that a line of `docker ps` publishes is read back, however
/// many there are, each with all that the line says of its container.
pub proof fn law_container_line_reads_back(
    name: Seq<char>,
    ps: Seq<Publish>,
    dir: Seq<char>,
    image: Seq<char>,
    age: Seq<char>,
    project: Seq<char>,
)
    requires
        ps.len() > 0,
        forall|i: int| 0 <= i < ps.len() ==> (#[trigger] ps[i]).fits(),
        !name.contains('\t') && !dir.contains('\t') && !image.contains('\t') && !age.contains('\t'),
        dir.len() > 0 ==> !text::is_space(dir[0]) && !text::is_space(dir.last()),
        project.len() > 0 ==> !text::is_space(project[0]) && !text::is_space(project.last()),
    ensures
        ({
            let rs = docker::published_line(container_line(name, ps, dir, image, age, project));
            &&& rs.len() == ps.len()
            &&& forall|i: int|
                0 <= i < ps.len() ==> {
                    let r = #[trigger] rs[i];
                    &&& r.proto == ps[i].proto
                    &&& r.addr == docker::bare_addr(ps[i].host)
                    &&& r.first == ps[i].first && r.last == ps[i].last
                    &&& r.info.name == name
                    &&& r.info.image == image
                    &&& r.info.running_for == age
                    &&& r.info.container_port == ps[i].inner_first
                    &&& r.info.work_dir == if dir.len() > 0 {
                        Some(dir)
                    } else {
                        None
                    }
                    &&& r.info.compose_project == if project.len() > 0 {
                        Some(project)
                    } else {
                        None
                    }
                }
        }),
{
    let segs = segments(ps);
    let column = text_laws::joined_by(segs, ',');
    let parts = seq![name, column, dir, image, age, project];
    let line = container_line(name, ps, dir, image, age, project);
    assert forall|i: int| 0 <= i < segs.len() implies !(#[trigger] segs[i]).contains(',')
        && !segs[i].contains('\t') by {
        lemma_publish_chars(ps[i]);
        if i > 0 {
            let t = ps[i].text();
            assert forall|c: char| c == ',' || c == '\t' implies !segs[i].contains(c) by {
                if segs[i].contains(c) {
                    let k = choose|k: int| 0 <= k < segs[i].len() && segs[i][k] == c;
                    assert(k > 0);
                    assert(t[k - 1] == c);
                }
            }
        }
    }
    lemma_join_lacks(segs, ',', '\t');
    text_laws::law_splitn_reads_back(parts, '\t', 6);
    text_laws::law_split_reads_back(segs, ',');
    lemma_ranges_read_back(ps, parts, ps.len() as int);
    assert(segs.take(segs.len() as int) =~= segs);
    let none = Seq::<char>::empty();
    text_laws::law_trim(none, dir, none);
    text_laws::law_trim(none, project, none);
    assert(none + dir + none =~= dir);
    assert(none + project + none =~= project);
    let rs = docker::published_line(line);
    assert forall|i: int| 0 <= i < ps.len() implies {
        let r = #[trigger] rs[i];
        &&& r.proto == ps[i].proto
        &&& r.addr == docker::bare_addr(ps[i].host)
        &&& r.first == ps[i].first && r.last == ps[i].last
        &&& r.info == docker::container_info(parts, ps[i].inner_first)
    } by {
        law_published_range_reads_back(ps[i], parts);
    }
}

proof fn lemma_join_lacks(parts: Seq<Seq<char>>, sep: char, c: char)
    requires
        sep != c,
        forall|i: int| 0 <= i < parts.len() ==> !(#[trigger] parts[i]).contains(c),
    ensures
        !text_laws::joined_by(parts, sep).contains(c),
    decreases parts.len(),
{
    if parts.len() == 1 {
        assert(!parts[0].contains(c));
    } else if parts.len() > 1 {
        let rest = parts.skip(1);
        assert forall|i: int| 0 <= i < rest.len() implies !(#[trigger] rest[i]).contains(c) by {
            assert(rest[i] == parts[i + 1]);
        }
        lemma_join_lacks(rest, sep, c);
        assert(!parts[0].contains(c));
        stats_laws::lemma_lacks_join(parts[0], sep, text_laws::joined_by(rest, sep), c);
    }
}

/// Every range of every line is in the map, line by line in order.
pub proof fn law_every_container_counts(lines: Seq<Seq<char>>, more: Seq<Seq<char>>)
    ensures
        docker::published_lines(lines + more) == docker::published_lines(lines)
            + docker::published_lines(more),
        lines.len() == 1 ==> docker::published_lines(lines) == docker::published_line(lines[0]),
    decreases more.len(),
{
    let all = lines + more;
    if more.len() == 0 {
        assert(all =~= lines);
        assert(docker::published_lines(all) =~= docker::published_lines(lines)
            + docker::published_lines(more));
    } else {
        law_every_container_counts(lines, more.drop_last());
        assert(all.drop_last() =~= lines + more.drop_last());
        assert(all.last() == more.last());
        assert(docker::published_lines(all) =~= docker::published_lines(lines)
            + docker::published_lines(more));
    }
    if lines.len() == 1 {
        assert(lines.drop_last() =~= Seq::<Seq<char>>::empty());
        assert(docker::published_lines(lines.drop_last()) =~= Seq::<PublishedView>::empty());
        assert(docker::published_lines(lines) =~= docker::published_line(lines[0]));
    }
}

// ---------------------------------------------------------------------------
// Who listens where
// ---------------------------------------------------------------------------

/// What a published range claims, in terms of addresses: the very address it
/// is published on; every address where it is published on none in
/// particular; every address without a colon for `0.0.0.0` and every one with
/// a colon for `::`; and a listener on all addresses where it is published on
/// all of a stack. Nothing on another port or protocol.
pub proof fn law_claims(p: PublishedView, proto: Proto, addr: Seq<char>, port: u32)
    ensures
        p.claims(proto, addr, port) <==> {
            &&& proto == p.proto
            &&& p.first <= port
            &&& port <= p.last
            &&& {
                ||| addr == p.addr
                ||| p.addr.len() == 0 || p.addr == "*"@
                ||| (p.addr == "0.0.0.0"@ && !addr.contains(':'))
                ||| (p.addr == "::"@ && (addr.contains(':') || addr.len() == 0 || addr == "*"@))
            }
        },
{
    text::lemma_find_char(addr, ':');
    reveal_strlit("*");
    if addr == "*"@ {
        assert(!addr.contains(':'));
    }
    if addr.contains(':') {
        let i = choose|i: int| 0 <= i < addr.len() && addr[i] == ':';
        assert(addr[i] == ':');
    }
}

/// The port inside the container is as far into its range as the host port is
/// into that of the host; everything else is the container's.
pub proof fn law_container_port_counts_along(p: PublishedView, port: u32)
    requires
        p.first <= port,
        p.info.container_port + (port - p.first) <= u32::MAX,
    ensures
        p.behind(port).container_port == p.info.container_port + (port - p.first),
        p.behind(port).name == p.info.name,
        p.behind(port).image == p.info.image,
        p.behind(port).running_for == p.info.running_for,
        p.behind(port).work_dir == p.info.work_dir,
        p.behind(port).compose_project == p.info.compose_project,
{
}

/// Of several ranges that claim a listener the last one has it.
pub proof fn law_last_claim_counts(
    before: Seq<PublishedView>,
    p: PublishedView,
    behind: Seq<PublishedView>,
    proto: Proto,
    addr: Seq<char>,
    port: u32,
)
    requires
        p.claims(proto, addr, port),
        forall|i: int|
            0 <= i < behind.len() ==> !(#[trigger] behind[i]).claims(proto, addr, port),
    ensures
        docker::container_of(before.push(p) + behind, proto, addr, port) == Some(p.behind(port)),
    decreases behind.len(),
{
    let all = before.push(p) + behind;
    if behind.len() == 0 {
        assert(all =~= before.push(p));
        assert(all.last() == p);
    } else {
        let b = behind.drop_last();
        assert(all.drop_last() =~= before.push(p) + b);
        assert(all.last() == behind[behind.len() - 1]);
        assert forall|i: int| 0 <= i < b.len() implies !(#[trigger] b[i]).claims(
            proto,
            addr,
            port,
        ) by {
            assert(b[i] == behind[i]);
        }
        law_last_claim_counts(before, p, b, proto, addr, port);
    }
}

// ---------------------------------------------------------------------------
// Usage
// ---------------------------------------------------------------------------

/// The usage of a container is read back from the line that names it: its CPU
/// use, and its memory use up to the slash.
pub proof fn law_usage_reads_back(
    name: Seq<char>,
    cpu: Seq<char>,
    used: Seq<char>,
    limit: Seq<char>,
    other: Seq<char>,
)
    requires
        !name.contains('\t') && !cpu.contains('\t'),
        !used.contains('/'),
        used.len() > 0 ==> !text::is_space(used[0]) && !text::is_space(used.last()),
    ensures
        ({
            let line = text_laws::joined_by(
                seq![name, cpu, used + seq![' '] + seq!['/'] + limit],
                '\t',
            );
            &&& docker::usage_in(line, name) == Some((cpu, used))
            &&& other != name ==> docker::usage_in(line, other) is None
        }),
{
    let mem = used + seq![' '] + seq!['/'] + limit;
    let parts = seq![name, cpu, mem];
    text_laws::law_splitn_reads_back(parts, '\t', 3);
    let u = used + seq![' '];
    assert(!u.contains('/')) by {
        if u.contains('/') {
            let i = choose|i: int| 0 <= i < u.len() && u[i] == '/';
            if i < used.len() {
                assert(used[i] == '/');
            }
        }
    }
    text_laws::lemma_first(u, '/', limit);
    assert(text::split(mem, '/')[0] == u);
    let none = Seq::<char>::empty();
    text_laws::law_trim(none, used, seq![' ']);
    assert(none + used + seq![' '] =~= u);
}

/// Of several lines about a container the last counts.
pub proof fn law_last_usage_counts(
    before: Seq<Seq<char>>,
    line: Seq<char>,
    behind: Seq<Seq<char>>,
    name: Seq<char>,
)
    requires
        docker::usage_in(line, name) is Some,
        forall|i: int|
            0 <= i < behind.len() ==> docker::usage_in(#[trigger] behind[i], name) is None,
    ensures
        docker::usage_of(before.push(line) + behind, name) == docker::usage_in(line, name),
    decreases behind.len(),
{
    let all = before.push(line) + behind;
    if behind.len() == 0 {
        assert(all =~= before.push(line));
        assert(all.last() == line);
    } else {
        let b = behind.drop_last();
        assert(all.drop_last() =~= before.push(line) + b);
        assert(all.last() == behind[behind.len() - 1]);
        assert forall|i: int| 0 <= i < b.len() implies docker::usage_in(
            #[trigger] b[i],
            name,
        ) is None by {
            assert(b[i] == behind[i]);
        }
        law_last_usage_counts(before, line, b, name);
    }
}

/// A container's row gets the usage stated for its name, and keeps everything
/// else; local rows stay as they are.
pub proof fn law_usage_goes_to_its_container(e: EntryView, lines: Seq<Seq<char>>)
    ensures
        ({
            let r = docker::with_usage(e, lines);
            let known = e.docker is Some && docker::usage_of(lines, e.docker.unwrap().name) is Some;
            &&& known ==> docker::usage_of(lines, e.docker.unwrap().name) == Some(
                (r.stats.cpu, r.stats.mem),
            )
            &&& !known ==> r == e
            &&& r.stats.uptime == e.stats.uptime && r.docker == e.docker && r.pid == e.pid
            &&& r.port == e.port && r.proto == e.proto && r.cwd == e.cwd && r.addr == e.addr
        }),
{
}

/// The uptime of a container is its age without the `ago` behind it.
pub proof fn law_container_uptime(e: EntryView, age: Seq<char>, d: DockerView)
    requires
        e.docker == Some(d),
        age.len() >= 4 ==> age.skip(age.len() - 4) != " ago"@,
        d.running_for == age + " ago"@ || d.running_for == age,
    ensures
        docker::with_docker_uptime(e).stats.uptime == age,
        docker::with_docker_uptime(e).docker == e.docker,
{
    reveal_strlit(" ago");
    let s = age + " ago"@;
    assert(s.skip(s.len() - 4) =~= " ago"@);
    assert(s.take(s.len() - 4) =~= age);
    assert(docker::trim_suffixes(age, " ago"@) == age);
    assert(docker::trim_suffixes(s, " ago"@) == age);
}

// ---------------------------------------------------------------------------
// What a line may lack
// ---------------------------------------------------------------------------

/// A container's columns are name, ports, directory, image, age and compose
/// project. A dash stands for an image or an age that is missing; a directory
/// or a project that is missing or blank is unknown, and white space around
/// either is none of it.
pub proof fn law_columns_may_be_missing(
    parts: Seq<Seq<char>>,
    port: u32,
    before: Seq<char>,
    s: Seq<char>,
    behind: Seq<char>,
)
    requires
        parts.len() >= 2,
        text_laws::blank(before),
        text_laws::blank(behind),
        s.len() > 0 ==> !text::is_space(s[0]) && !text::is_space(s.last()),
    ensures
        ({
            let d = docker::container_info(parts, port);
            let label = if s.len() > 0 {
                Some(s)
            } else {
                None
            };
            &&& d.name == parts[0]
            &&& d.container_port == port
            &&& parts.len() <= 2 ==> d.work_dir is None
            &&& parts.len() > 2 && parts[2] == before + s + behind ==> d.work_dir == label
            &&& d.image == if parts.len() > 3 {
                parts[3]
            } else {
                "-"@
            }
            &&& d.running_for == if parts.len() > 4 {
                parts[4]
            } else {
                "-"@
            }
            &&& parts.len() <= 5 ==> d.compose_project is None
            &&& parts.len() > 5 && parts[5] == before + s + behind ==> d.compose_project == label
        }),
{
    text_laws::law_trim(before, s, behind);
}

/// The ports of a line are read however many of the later columns it has; a
/// line without a ports column publishes nothing.
pub proof fn law_short_lines_are_read(parts: Seq<Seq<char>>, name: Seq<char>)
    requires
        2 <= parts.len() <= 6,
        forall|i: int| 0 <= i < parts.len() ==> !(#[trigger] parts[i]).contains('\t'),
        !name.contains('\t'),
    ensures
        docker::published_line(text_laws::joined_by(parts, '\t')) == docker::published_ranges(
            text::split(parts[1], ','),
            parts,
        ),
        docker::published_line(name).len() == 0,
{
    assert(!parts[parts.len() - 1].contains('\t'));
    text_laws::law_splitn_reads_back(parts, '\t', 6);
    text_laws::lemma_none(name, '\t');
}

/// The arrow of a published range parts it, whatever stands behind it.
proof fn lemma_arrow(p: Publish, right: Seq<char>)
    requires
        p.fits(),
    ensures
        ({
            let s = p.outer() + "->"@ + right;
            let n = p.outer().len() as int;
            let h = p.host.len() as int;
            &&& text::find_text(s, "->"@) == Some(n)
            &&& s.take(n) == p.outer()
            &&& s.skip(n + 2) == right
            &&& text::rfind_char(p.outer(), ':') == Some(h)
            &&& p.outer().take(h) == p.host
            &&& docker::port_range(p.outer().skip(h + 1)) == Some((p.first, p.last))
        }),
{
    let outer = p.outer();
    let s = outer + "->"@ + right;
    reveal_strlit("->");
    lemma_range_lacks(p.first, p.last, '>');
    lemma_range_lacks(p.first, p.last, ':');
    let n = outer.len() as int;
    text::lemma_find_from(s, "->"@, 0);
    assert(s.subrange(n, n + 2) =~= "->"@);
    assert(text::stands_at(s, "->"@, n));
    assert(!p.host.contains('>')) by {
        if p.host.contains('>') {
            let i = choose|i: int| 0 <= i < p.host.len() && p.host[i] == '>';
            assert(p.host[i] != '>');
        }
    }
    stats_laws::lemma_lacks_join(p.host, ':', range_text(p.first, p.last), '>');
    assert forall|j: int| 0 <= j < n implies !text::stands_at(s, "->"@, j) by {
        if text::stands_at(s, "->"@, j) {
            assert(s.subrange(j, j + 2)[1] == s[j + 1]);
            assert("->"@[1] == '>');
            if j + 1 < n {
                assert(outer[j + 1] == '>');
                assert(outer.contains('>'));
            } else {
                assert(s[n] == '-');
            }
        }
    }
    assert(s.take(n) =~= outer);
    assert(s.skip(n + 2) =~= right);
    text_laws::lemma_last(p.host, ':', range_text(p.first, p.last));
    law_range_reads_back(p.first, p.last);
}

/// A published range of another protocol than TCP and UDP is none, and where
/// the port inside the container cannot be read it is the one outside.
#[verifier::rlimit(50)]
pub proof fn law_unusual_ranges(
    p: Publish,
    inner: Seq<char>,
    name: Seq<char>,
    parts: Seq<Seq<char>>,
)
    requires
        p.fits(),
        !inner.contains('/'),
        !name.contains('/'),
    ensures
        name != "tcp"@ && name != "udp"@ ==> docker::published_range(
            p.outer() + "->"@ + (inner + seq!['/'] + name),
            parts,
        ) is None,
        docker::published_range(p.outer() + "->"@ + inner, parts) is None,
        docker::port_range(inner) is None ==> ({
            let r = docker::published_range(
                p.outer() + "->"@ + (inner + seq!['/'] + p.proto.label()),
                parts,
            );
            &&& r is Some
            &&& r.unwrap().proto == p.proto
            &&& r.unwrap().first == p.first && r.unwrap().last == p.last
            &&& r.unwrap().info.container_port == p.first
        }),
{
    lemma_arrow(p, inner + seq!['/'] + name);
    lemma_slash(inner, name);
    lemma_arrow(p, inner);
    text_laws::lemma_none(inner, '/');
    lemma_arrow(p, inner + seq!['/'] + p.proto.label());
    lemma_label_lacks(p.proto, '/');
    lemma_slash(inner, p.proto.label());
    reveal_strlit("tcp");
    reveal_strlit("udp");
    assert("tcp"@[0] == 't' && "udp"@[0] == 'u');
}

proof fn lemma_slash(a: Seq<char>, b: Seq<char>)
    requires
        !a.contains('/'),
        !b.contains('/'),
    ensures
        text::split(a + seq!['/'] + b, '/') == seq![a, b],
{
    let ps = seq![a, b];
    assert(ps.skip(1) =~= seq![b]);
    assert(text_laws::joined_by(ps.skip(1), '/') == b);
    assert(text_laws::joined_by(ps, '/') == a + seq!['/'] + b);
    text_laws::law_split_reads_back(ps, '/');
}

/// Every copy of a suffix is cut off, and nothing else is.
pub proof fn law_trimmed_suffixes(s: Seq<char>, suffix: Seq<char>)
    requires
        suffix.len() > 0,
    ensures
        docker::trim_suffixes(s + suffix, suffix) == docker::trim_suffixes(s, suffix),
        s.len() < suffix.len() ==> docker::trim_suffixes(s, suffix) == s,
        s.len() > 0 && s.last() != suffix.last() ==> docker::trim_suffixes(s, suffix) == s,
{
    let t = s + suffix;
    assert(t.skip(t.len() - suffix.len()) =~= suffix);
    assert(t.take(t.len() - suffix.len()) =~= s);
    if s.len() >= suffix.len() && s.skip(s.len() - suffix.len()) == suffix {
        assert(s.skip(s.len() - suffix.len()).last() == s.last());
    }
}

/// Only containers are asked for.
pub proof fn law_only_containers_are_asked_for(es: Seq<EntryView>, name: Seq<char>)
    requires
        docker::names_of(es).contains(name),
    ensures
        exists|i: int|
            0 <= i < es.len() && (#[trigger] es[i]).docker is Some && es[i].docker.unwrap().name
                == name,
    decreases es.len(),
{
    if es.len() > 0 {
        let front = es.drop_last();
        if docker::names_of(front).contains(name) {
            law_only_containers_are_asked_for(front, name);
            let i = choose|i: int|
                0 <= i < front.len() && (#[trigger] front[i]).docker is Some
                    && front[i].docker.unwrap().name == name;
            assert(es[i] == front[i]);
        } else {
            let all = docker::names_of(es);
            let k = choose|k: int| 0 <= k < all.len() && all[k] == name;
            if k < docker::names_of(front).len() {
                assert(docker::names_of(front)[k] == name);
            }
            assert(es[es.len() - 1].docker is Some);
        }
    }
}

} // verus!
