//! Compiling forwarding entries into nftables rule statements, and the whole
//! ruleset script of one cycle.
use vstd::prelude::*;
use crate::config::{nat_cell, CellView};
use crate::text::{dec_of, int_text};

verus! {

/// The text that `Debug` writes for a string with these characters.
pub uninterp spec fn quoted_of(s: Seq<char>) -> Seq<char>;

/// Relies on `<str as Debug>::fmt`: the string in double quotes with special
/// characters escaped, a text that depends on the characters alone.
#[verifier::external_body]
fn debug_quoted(s: &str) -> (r: String)
    ensures
        r@ == quoted_of(s@),
{
    format!("{:?}", s)
}

/// The comment line that names the entry a block comes from, as the entry's
/// `Debug` text; `quoted` is the host name as `Debug` writes it.
pub open spec fn cell_label(c: CellView, quoted: Seq<char>) -> Seq<char> {
    match c {
        CellView::Single { local_port, remote_port, .. } => "#SINGLE { local_port: "@ + dec_of(
            local_port as int,
        ) + ", remote_port: "@ + dec_of(remote_port as int) + ", remote_domain: "@ + quoted
            + " }\n"@,
        CellView::Range { port_start, port_end, .. } => "#RANGE { port_start: "@ + dec_of(
            port_start as int,
        ) + ", port_end: "@ + dec_of(port_end as int) + ", remote_domain: "@ + quoted + " }\n"@,
    }
}

/// Scope of an ingress statement: the named incoming interface, or none.
pub open spec fn iif(eth: Seq<char>) -> Seq<char> {
    if eth.len() == 0 {
        Seq::empty()
    } else {
        " iifname \""@ + eth + "\""@
    }
}

/// Scope of an egress statement: the named outgoing interface, or none.
pub open spec fn oif(eth: Seq<char>) -> Seq<char> {
    if eth.len() == 0 {
        Seq::empty()
    } else {
        " oifname \""@ + eth + "\""@
    }
}

/// Ingress statement: traffic of `proto` to local port(s) `dport` is sent on
/// to `ip:to_port`.
pub open spec fn dnat_rule(
    proto: Seq<char>,
    dport: Seq<char>,
    ip: Seq<char>,
    to_port: Seq<char>,
    eth: Seq<char>,
) -> Seq<char> {
    "add rule ip nat PREROUTING"@ + iif(eth) + " "@ + proto + " dport "@ + dport
        + " counter dnat to "@ + ip + ":"@ + to_port + "\n"@
}

/// Egress statement: traffic of `proto` to `ip`, port(s) `dport`, leaves from
/// the local address `local`.
pub open spec fn snat_rule(
    proto: Seq<char>,
    ip: Seq<char>,
    dport: Seq<char>,
    eth: Seq<char>,
    local: Seq<char>,
) -> Seq<char> {
    "add rule ip nat POSTROUTING"@ + oif(eth) + " ip daddr "@ + ip + " "@ + proto + " dport "@
        + dport + " counter snat to "@ + local + "\n"@
}

/// The four statements of one entry: DNAT for TCP and UDP, then SNAT for TCP
/// and UDP.
pub open spec fn forward_rules(
    local_ports: Seq<char>,
    ip: Seq<char>,
    remote_ports: Seq<char>,
    eth: Seq<char>,
    local: Seq<char>,
) -> Seq<char> {
    dnat_rule("tcp"@, local_ports, ip, remote_ports, eth) + dnat_rule(
        "udp"@,
        local_ports,
        ip,
        remote_ports,
        eth,
    ) + snat_rule("tcp"@, ip, remote_ports, eth, local) + snat_rule(
        "udp"@,
        ip,
        remote_ports,
        eth,
        local,
    )
}

/// The port text of a range, `start-end`.
pub open spec fn span(start: i32, end: i32) -> Seq<char> {
    dec_of(start as int) + "-"@ + dec_of(end as int)
}

/// The statements of an entry: a single port maps its local port to its
/// remote port; a range maps the same span on both sides.
pub open spec fn statements(c: CellView, ip: Seq<char>, eth: Seq<char>, local: Seq<char>) -> Seq<
    char,
> {
    match c {
        CellView::Single { local_port, remote_port, .. } => forward_rules(
            dec_of(local_port as int),
            ip,
            dec_of(remote_port as int),
            eth,
            local,
        ),
        CellView::Range { port_start, port_end, .. } => forward_rules(
            span(port_start, port_end),
            ip,
            span(port_start, port_end),
            eth,
            local,
        ),
    }
}

/// The block of an entry given the quoted host name: empty when the remote
/// or the local address is unknown (empty), else the comment line, the four
/// statements and a blank line.
pub open spec fn block_text(
    c: CellView,
    quoted: Seq<char>,
    ip: Seq<char>,
    eth: Seq<char>,
    local: Seq<char>,
) -> Seq<char> {
    if ip.len() == 0 || local.len() == 0 {
        Seq::empty()
    } else {
        cell_label(c, quoted) + statements(c, ip, eth, local) + "\n"@
    }
}

/// The block of an entry.
pub open spec fn rule_block(c: CellView, ip: Seq<char>, eth: Seq<char>, local: Seq<char>) -> Seq<
    char,
> {
    block_text(c, quoted_of(c.domain()), ip, eth, local)
}

fn push_scope(s: &mut String, word: &str, eth: &str)
    ensures
        final(s)@ == old(s)@ + if eth@.len() == 0 {
            Seq::empty()
        } else {
            word@ + eth@ + "\""@
        },
{
    if eth.unicode_len() != 0 {
        let ghost start = s@;
        s.append(word);
        s.append(eth);
        s.append("\"");
        assert(s@ =~= start + (word@ + eth@ + "\""@));
    } else {
        assert(s@ =~= s@ + Seq::<char>::empty());
    }
}

fn push_dnat(s: &mut String, proto: &str, dport: &str, ip: &str, to_port: &str, eth: &str)
    ensures
        final(s)@ == old(s)@ + dnat_rule(proto@, dport@, ip@, to_port@, eth@),
{
    let ghost start = s@;
    s.append("add rule ip nat PREROUTING");
    push_scope(s, " iifname \"", eth);
    s.append(" ");
    s.append(proto);
    s.append(" dport ");
    s.append(dport);
    s.append(" counter dnat to ");
    s.append(ip);
    s.append(":");
    s.append(to_port);
    s.append("\n");
    assert(s@ =~= start + dnat_rule(proto@, dport@, ip@, to_port@, eth@));
}

fn push_snat(s: &mut String, proto: &str, ip: &str, dport: &str, eth: &str, local: &str)
    ensures
        final(s)@ == old(s)@ + snat_rule(proto@, ip@, dport@, eth@, local@),
{
    let ghost start = s@;
    s.append("add rule ip nat POSTROUTING");
    push_scope(s, " oifname \"", eth);
    s.append(" ip daddr ");
    s.append(ip);
    s.append(" ");
    s.append(proto);
    s.append(" dport ");
    s.append(dport);
    s.append(" counter snat to ");
    s.append(local);
    s.append("\n");
    assert(s@ =~= start + snat_rule(proto@, ip@, dport@, eth@, local@));
}

fn push_forward_rules(
    s: &mut String,
    local_ports: &str,
    ip: &str,
    remote_ports: &str,
    eth: &str,
    local: &str,
)
    ensures
        final(s)@ == old(s)@ + forward_rules(local_ports@, ip@, remote_ports@, eth@, local@),
{
    let ghost start = s@;
    push_dnat(s, "tcp", local_ports, ip, remote_ports, eth);
    push_dnat(s, "udp", local_ports, ip, remote_ports, eth);
    push_snat(s, "tcp", ip, remote_ports, eth, local);
    push_snat(s, "udp", ip, remote_ports, eth, local);
    assert(s@ =~= start + forward_rules(local_ports@, ip@, remote_ports@, eth@, local@));
}

impl nat_cell {
    /// The host name of the entry.
    pub fn remote_domain(&self) -> (r: &str)
        ensures
            r@ == self@.domain(),
    {
        match self {
            nat_cell::SINGLE { remote_domain, .. } => remote_domain.as_str(),
            nat_cell::RANGE { remote_domain, .. } => remote_domain.as_str(),
        }
    }

    /// The resolved target of the entry: its host name and the address the
    /// lookup gave, or an empty address where the lookup failed.
    pub fn get_target_ip(&self, resolved: Option<String>) -> (r: (String, String))
        ensures
            r.0@ == self@.domain(),
            r.1@ == match resolved {
                Some(ip) => ip@,
                None => Seq::<char>::empty(),
            },
    {
        let domain = self.remote_domain().to_owned();
        match resolved {
            Some(ip) => (domain, ip),
            None => (domain, String::new()),
        }
    }

    /// The comment line naming this entry, with `quoted` as its host name.
    fn push_label(&self, s: &mut String, quoted: &str)
        ensures
            final(s)@ == old(s)@ + cell_label(self@, quoted@),
    {
        let ghost start = s@;
        match self {
            nat_cell::SINGLE { local_port, remote_port, .. } => {
                s.append("#SINGLE { local_port: ");
                s.append(int_text(*local_port).as_str());
                s.append(", remote_port: ");
                s.append(int_text(*remote_port).as_str());
            },
            nat_cell::RANGE { port_start, port_end, .. } => {
                s.append("#RANGE { port_start: ");
                s.append(int_text(*port_start).as_str());
                s.append(", port_end: ");
                s.append(int_text(*port_end).as_str());
            },
        }
        s.append(", remote_domain: ");
        s.append(quoted);
        s.append(" }\n");
        assert(s@ =~= start + cell_label(self@, quoted@));
    }

    /// The block of this entry, where `quoted` is its host name as `Debug`
    /// writes it, `remote_ip` the address the host name resolved to and
    /// `local_ip` the host's outbound address (each empty where its lookup
    /// failed), and `eth_name` the interface that scopes the statements
    /// (empty for none).
    pub fn compile_block(&self, quoted: &str, eth_name: &str, remote_ip: &str, local_ip: &str) -> (r:
        String)
        ensures
            r@ == block_text(self@, quoted@, remote_ip@, eth_name@, local_ip@),
    {
        let mut s = String::new();
        if remote_ip.unicode_len() == 0 || local_ip.unicode_len() == 0 {
            return s;
        }
        self.push_label(&mut s, quoted);
        let ghost labelled = s@;
        match self {
            nat_cell::SINGLE { local_port, remote_port, .. } => {
                let lp = int_text(*local_port);
                let rp = int_text(*remote_port);
                push_forward_rules(&mut s, lp.as_str(), remote_ip, rp.as_str(), eth_name, local_ip);
            },
            nat_cell::RANGE { port_start, port_end, .. } => {
                let mut ports = int_text(*port_start);
                ports.append("-");
                ports.append(int_text(*port_end).as_str());
                assert(ports@ == span(*port_start, *port_end));
                push_forward_rules(
                    &mut s,
                    ports.as_str(),
                    remote_ip,
                    ports.as_str(),
                    eth_name,
                    local_ip,
                );
            },
        }
        assert(s@ == labelled + statements(self@, remote_ip@, eth_name@, local_ip@));
        s.append("\n");
        s
    }

    /// The block of this entry for one cycle: empty where `remote_ip` or
    /// `local_ip` is empty (its lookup failed), else a comment line naming
    /// the entry and four statements scoped to `eth_name` when it is not
    /// empty.
    pub fn build(&self, eth_name: &str, remote_ip: &str, local_ip: &str) -> (r: String)
        ensures
            r@ == rule_block(self@, remote_ip@, eth_name@, local_ip@),
    {
        let quoted = debug_quoted(self.remote_domain());
        self.compile_block(quoted.as_str(), eth_name, remote_ip, local_ip)
    }
}

/// The fixed start of every script: it recreates the `nat` table from
/// nothing and declares its prerouting and postrouting chains.
pub open spec fn script_header() -> Seq<char> {
    "#!/usr/sbin/nft -f\n\nadd table ip nat\ndelete table ip nat\nadd table ip nat\nadd chain nat PREROUTING { type nat hook prerouting priority -100 ; }\nadd chain nat POSTROUTING { type nat hook postrouting priority 100 ; }\n\n"@
}

/// The script header.
pub fn script_prefix() -> (r: String)
    ensures
        r@ == script_header(),
{
    String::from_str(
        "#!/usr/sbin/nft -f\n\nadd table ip nat\ndelete table ip nat\nadd table ip nat\nadd chain nat PREROUTING { type nat hook prerouting priority -100 ; }\nadd chain nat POSTROUTING { type nat hook postrouting priority 100 ; }\n\n",
    )
}

/// The texts of `blocks` one after another.
pub open spec fn concat_all(blocks: Seq<Seq<char>>) -> Seq<char>
    decreases blocks.len(),
{
    if blocks.len() == 0 {
        Seq::empty()
    } else {
        concat_all(blocks.drop_last()) + blocks.last()
    }
}

/// The block of each entry, entry `i` with address `ips[i]`.
pub open spec fn rule_blocks(
    cells: Seq<CellView>,
    ips: Seq<Seq<char>>,
    eth: Seq<char>,
    local: Seq<char>,
) -> Seq<Seq<char>> {
    Seq::new(cells.len(), |i: int| rule_block(cells[i], ips[i], eth, local))
}

/// The script of one cycle: the header, then the block of every entry in
/// declaration order.
pub open spec fn script_text(
    cells: Seq<CellView>,
    ips: Seq<Seq<char>>,
    eth: Seq<char>,
    local: Seq<char>,
) -> Seq<char> {
    script_header() + concat_all(rule_blocks(cells, ips, eth, local))
}

/// The script of one cycle, where `remote_ips[i]` is the address that the
/// host of `cells[i]` resolved to (empty where that failed) and `local_ip`
/// the host's outbound address (empty where that lookup failed).
pub fn candidate_script(
    cells: &Vec<nat_cell>,
    remote_ips: &Vec<String>,
    eth_name: &str,
    local_ip: &str,
) -> (r: String)
    requires
        cells.len() == remote_ips.len(),
    ensures
        r@ == script_text(
            cells@.map_values(|c: nat_cell| c@),
            remote_ips@.map_values(|s: String| s@),
            eth_name@,
            local_ip@,
        ),
{
    let ghost cv = cells@.map_values(|c: nat_cell| c@);
    let ghost iv = remote_ips@.map_values(|s: String| s@);
    let ghost blocks = rule_blocks(cv, iv, eth_name@, local_ip@);
    let mut script = script_prefix();
    let mut i: usize = 0;
    while i < cells.len()
        invariant
            i <= cells.len() == remote_ips.len(),
            cv == cells@.map_values(|c: nat_cell| c@),
            iv == remote_ips@.map_values(|s: String| s@),
            blocks == rule_blocks(cv, iv, eth_name@, local_ip@),
            script@ == script_header() + concat_all(blocks.subrange(0, i as int)),
        decreases cells.len() - i,
    {
        let block = cells[i].build(eth_name, remote_ips[i].as_str(), local_ip);
        assert(block@ == blocks[i as int]);
        assert(blocks.subrange(0, i + 1).drop_last() =~= blocks.subrange(0, i as int));
        script.append(block.as_str());
        assert(script@ =~= script_header() + concat_all(blocks.subrange(0, i + 1)));
        i = i + 1;
    }
    assert(blocks.subrange(0, i as int) =~= blocks);
    script
}

proof fn lemma_concat_split(a: Seq<Seq<char>>, b: Seq<Seq<char>>)
    ensures
        concat_all(a + b) == concat_all(a) + concat_all(b),
    decreases b.len(),
{
    if b.len() == 0 {
        assert(a + b =~= a);
        assert(concat_all(a) + concat_all(b) =~= concat_all(a));
    } else {
        lemma_concat_split(a, b.drop_last());
        assert((a + b).drop_last() =~= a + b.drop_last());
        assert(concat_all(a + b) =~= concat_all(a) + concat_all(b));
    }
}

/// `blocks` cut around position `k`.
proof fn lemma_concat_around(blocks: Seq<Seq<char>>, k: int)
    requires
        0 <= k < blocks.len(),
    ensures
        concat_all(blocks) == concat_all(blocks.subrange(0, k)) + blocks[k] + concat_all(
            blocks.subrange(k + 1, blocks.len() as int),
        ),
{
    let pre = blocks.subrange(0, k);
    let post = blocks.subrange(k + 1, blocks.len() as int);
    assert(blocks =~= pre.push(blocks[k]) + post);
    lemma_concat_split(pre.push(blocks[k]), post);
    assert(pre.push(blocks[k]).drop_last() =~= pre);
}

/// An entry whose host name did not resolve adds nothing to the script, and
/// every other entry is compiled as it would be without it: the script is
/// the one of the same cycle without that entry.
pub proof fn lemma_unresolved_entry_dropped(
    cells: Seq<CellView>,
    ips: Seq<Seq<char>>,
    eth: Seq<char>,
    local: Seq<char>,
    k: int,
)
    requires
        cells.len() == ips.len(),
        0 <= k < cells.len(),
    ensures
        rule_block(cells[k], Seq::empty(), eth, local) == Seq::<char>::empty(),
        script_text(cells, ips.update(k, Seq::empty()), eth, local) == script_text(
            cells.remove(k),
            ips.remove(k),
            eth,
            local,
        ),
{
    let with = rule_blocks(cells, ips.update(k, Seq::empty()), eth, local);
    let without = rule_blocks(cells.remove(k), ips.remove(k), eth, local);
    lemma_concat_around(with, k);
    assert(with.subrange(0, k) =~= without.subrange(0, k));
    assert(with.subrange(k + 1, with.len() as int) =~= without.subrange(k, without.len() as int));
    assert(without =~= without.subrange(0, k) + without.subrange(k, without.len() as int));
    lemma_concat_split(without.subrange(0, k), without.subrange(k, without.len() as int));
    assert(concat_all(with) =~= concat_all(without));
}

proof fn lemma_middle_differs(x: Seq<char>, a: Seq<char>, b: Seq<char>, t1: Seq<char>, t2: Seq<char>)
    requires
        a.len() == b.len(),
        a != b,
    ensures
        x + a + t1 != x + b + t2,
{
    if x + a + t1 == x + b + t2 {
        assert((x + a + t1).subrange(x.len() as int, (x.len() + a.len()) as int) =~= a);
        assert((x + b + t2).subrange(x.len() as int, (x.len() + b.len()) as int) =~= b);
    }
}

spec fn dnat_head(proto: Seq<char>, dport: Seq<char>, eth: Seq<char>) -> Seq<char> {
    "add rule ip nat PREROUTING"@ + iif(eth) + " "@ + proto + " dport "@ + dport
        + " counter dnat to "@
}

proof fn lemma_dnat_split(
    proto: Seq<char>,
    dport: Seq<char>,
    ip: Seq<char>,
    to_port: Seq<char>,
    eth: Seq<char>,
)
    ensures
        dnat_rule(proto, dport, ip, to_port, eth) == dnat_head(proto, dport, eth) + ip + (":"@
            + to_port + "\n"@),
{
    assert(dnat_rule(proto, dport, ip, to_port, eth) =~= dnat_head(proto, dport, eth) + ip + (
    ":"@ + to_port + "\n"@));
}

proof fn lemma_regroup(l: Seq<char>, h: Seq<char>, ip: Seq<char>, z: Seq<char>, d2: Seq<char>, s1: Seq<char>, s2: Seq<char>, n: Seq<char>)
    ensures
        l + (h + ip + z + d2 + s1 + s2) + n == (l + h) + ip + (z + d2 + s1 + s2 + n),
{
    assert(l + (h + ip + z + d2 + s1 + s2) + n =~= (l + h) + ip + (z + d2 + s1 + s2 + n));
}

/// With a known local address, an entry's block is different for different
/// remote addresses.
#[verifier::spinoff_prover]
proof fn lemma_block_tracks_ip(
    c: CellView,
    ip1: Seq<char>,
    ip2: Seq<char>,
    eth: Seq<char>,
    local: Seq<char>,
)
    requires
        local.len() > 0,
        ip1 != ip2,
    ensures
        rule_block(c, ip1, eth, local) != rule_block(c, ip2, eth, local),
{
    reveal_strlit("\n");
    let q = quoted_of(c.domain());
    let (lp, rp) = match c {
        CellView::Single { local_port, remote_port, .. } => (
            dec_of(local_port as int),
            dec_of(remote_port as int),
        ),
        CellView::Range { port_start, port_end, .. } => (
            span(port_start, port_end),
            span(port_start, port_end),
        ),
    };
    assert(statements(c, ip1, eth, local) == forward_rules(lp, ip1, rp, eth, local));
    assert(statements(c, ip2, eth, local) == forward_rules(lp, ip2, rp, eth, local));
    if ip1.len() > 0 && ip2.len() > 0 && ip1.len() == ip2.len() {
        let l = cell_label(c, q);
        assert(rule_block(c, ip1, eth, local) == l + forward_rules(lp, ip1, rp, eth, local) + "\n"@);
        assert(rule_block(c, ip2, eth, local) == l + forward_rules(lp, ip2, rp, eth, local) + "\n"@);
        let h = dnat_head("tcp"@, lp, eth);
        let z = ":"@ + rp + "\n"@;
        lemma_dnat_split("tcp"@, lp, ip1, rp, eth);
        lemma_dnat_split("tcp"@, lp, ip2, rp, eth);
        lemma_regroup(
            l,
            h,
            ip1,
            z,
            dnat_rule("udp"@, lp, ip1, rp, eth),
            snat_rule("tcp"@, ip1, rp, eth, local),
            snat_rule("udp"@, ip1, rp, eth, local),
            "\n"@,
        );
        lemma_regroup(
            l,
            h,
            ip2,
            z,
            dnat_rule("udp"@, lp, ip2, rp, eth),
            snat_rule("tcp"@, ip2, rp, eth, local),
            snat_rule("udp"@, ip2, rp, eth, local),
            "\n"@,
        );
        lemma_middle_differs(
            l + h,
            ip1,
            ip2,
            z + dnat_rule("udp"@, lp, ip1, rp, eth) + snat_rule("tcp"@, ip1, rp, eth, local)
                + snat_rule("udp"@, ip1, rp, eth, local) + "\n"@,
            z + dnat_rule("udp"@, lp, ip2, rp, eth) + snat_rule("tcp"@, ip2, rp, eth, local)
                + snat_rule("udp"@, ip2, rp, eth, local) + "\n"@,
        );
    } else if ip1.len() > 0 && ip2.len() > 0 {
        assert(rule_block(c, ip1, eth, local) == cell_label(c, q) + statements(c, ip1, eth, local)
            + "\n"@);
        assert(rule_block(c, ip2, eth, local) == cell_label(c, q) + statements(c, ip2, eth, local)
            + "\n"@);
        assert(forward_rules(lp, ip1, rp, eth, local).len() == forward_rules(lp, ip2, rp, eth, local).len() + 4 * ip1.len() - 4 * ip2.len());
    } else {
        assert("\n"@.len() == 1);
        if ip1.len() == 0 && ip2.len() == 0 {
            assert(ip1 =~= ip2);
        }
        let ip = if ip1.len() > 0 {
            ip1
        } else {
            ip2
        };
        assert(rule_block(c, ip, eth, local) == cell_label(c, q) + statements(c, ip, eth, local)
            + "\n"@);
    }
}

/// With a known local address, a new address for the host of one entry
/// changes the script.
pub proof fn lemma_changed_ip_changes_script(
    cells: Seq<CellView>,
    ips: Seq<Seq<char>>,
    eth: Seq<char>,
    local: Seq<char>,
    k: int,
    new_ip: Seq<char>,
)
    requires
        cells.len() == ips.len(),
        0 <= k < cells.len(),
        local.len() > 0,
        new_ip != ips[k],
    ensures
        script_text(cells, ips.update(k, new_ip), eth, local) != script_text(cells, ips, eth, local),
{
    let b1 = rule_blocks(cells, ips, eth, local);
    let b2 = rule_blocks(cells, ips.update(k, new_ip), eth, local);
    lemma_block_tracks_ip(cells[k], ips[k], new_ip, eth, local);
    assert(b2 =~= b1.update(k, b2[k]));
    lemma_concat_update_differs(script_header(), b1, k, b2[k]);
}

proof fn lemma_concat_update_differs(h: Seq<char>, bs: Seq<Seq<char>>, k: int, y: Seq<char>)
    requires
        0 <= k < bs.len(),
        y != bs[k],
    ensures
        h + concat_all(bs.update(k, y)) != h + concat_all(bs),
{
    let n = bs.len() as int;
    let b2 = bs.update(k, y);
    lemma_concat_around(bs, k);
    lemma_concat_around(b2, k);
    assert(bs.subrange(0, k) =~= b2.subrange(0, k));
    assert(bs.subrange(k + 1, n) =~= b2.subrange(k + 1, n));
    let x = h + concat_all(bs.subrange(0, k));
    let t = concat_all(bs.subrange(k + 1, n));
    assert(h + concat_all(bs) =~= x + bs[k] + t);
    assert(h + concat_all(b2) =~= x + y + t);
    if y.len() == bs[k].len() {
        lemma_middle_differs(x, y, bs[k], t, t);
    }
}

} // verus!
