//! Forwarding entries and the configuration text they are read from.
use vstd::prelude::*;
use crate::text::{parse_i32, parse_i32_of, same_text, split_on, split_on_char, trim, trimmed};

verus! {

/// One forwarding entry of the configuration.
#[allow(non_camel_case_types)]
#[derive(Debug)]
pub enum nat_cell {
    /// One local port forwarded to one port of the remote host.
    SINGLE { local_port: i32, remote_port: i32, remote_domain: String },
    /// An inclusive port range forwarded to the same range on the remote host.
    RANGE { port_start: i32, port_end: i32, remote_domain: String },
}

/// What a forwarding entry holds, with its host name as characters.
pub enum CellView {
    Single { local_port: i32, remote_port: i32, remote_domain: Seq<char> },
    Range { port_start: i32, port_end: i32, remote_domain: Seq<char> },
}

impl CellView {
    pub open spec fn domain(self) -> Seq<char> {
        match self {
            CellView::Single { remote_domain, .. } => remote_domain,
            CellView::Range { remote_domain, .. } => remote_domain,
        }
    }
}

impl View for nat_cell {
    type V = CellView;

    open spec fn view(&self) -> CellView {
        match self {
            nat_cell::SINGLE { local_port, remote_port, remote_domain } => CellView::Single {
                local_port: *local_port,
                remote_port: *remote_port,
                remote_domain: remote_domain@,
            },
            nat_cell::RANGE { port_start, port_end, remote_domain } => CellView::Range {
                port_start: *port_start,
                port_end: *port_end,
                remote_domain: remote_domain@,
            },
        }
    }
}

/// How one configuration line reads.
pub enum LineKind {
    /// A well-formed entry.
    Entry(CellView),
    /// Nothing but whitespace.
    Blank,
    /// A non-blank line without exactly four fields: reported and skipped.
    Malformed,
    /// Four fields whose first is neither `SINGLE` nor `RANGE`: skipped.
    Unknown,
    /// A `SINGLE` or `RANGE` line with a port that is not an `i32`.
    BadNumber,
}

/// Outcome of parsing one configuration line.
pub enum ParsedLine {
    Entry(nat_cell),
    Blank,
    Malformed,
    Unknown,
    BadNumber,
}

impl View for ParsedLine {
    type V = LineKind;

    open spec fn view(&self) -> LineKind {
        match self {
            ParsedLine::Entry(c) => LineKind::Entry(c@),
            ParsedLine::Blank => LineKind::Blank,
            ParsedLine::Malformed => LineKind::Malformed,
            ParsedLine::Unknown => LineKind::Unknown,
            ParsedLine::BadNumber => LineKind::BadNumber,
        }
    }
}

/// The reading of one line: trimmed, cut at commas into fields, each field
/// trimmed; `KIND,<port>,<port>,<host>` with `KIND` one of `SINGLE` and
/// `RANGE`, compared case-sensitively.
pub open spec fn line_kind(line: Seq<char>) -> LineKind {
    let t = trimmed(line);
    let f = split_on(t, ',');
    if f.len() == 4 {
        let kw = trimmed(f[0]);
        let a = parse_i32_of(trimmed(f[1]));
        let b = parse_i32_of(trimmed(f[2]));
        let host = trimmed(f[3]);
        if kw == "RANGE"@ {
            if a is Some && b is Some {
                LineKind::Entry(CellView::Range { port_start: a->0, port_end: b->0, remote_domain: host })
            } else {
                LineKind::BadNumber
            }
        } else if kw == "SINGLE"@ {
            if a is Some && b is Some {
                LineKind::Entry(
                    CellView::Single { local_port: a->0, remote_port: b->0, remote_domain: host },
                )
            } else {
                LineKind::BadNumber
            }
        } else {
            LineKind::Unknown
        }
    } else if t.len() != 0 {
        LineKind::Malformed
    } else {
        LineKind::Blank
    }
}

/// Parses one configuration line.
pub fn parse_line(line: &str) -> (r: ParsedLine)
    ensures
        r@ == line_kind(line@),
{
    let t = trim(line);
    let f = split_on_char(t, ',');
    proof {
        assert(f@.map_values(|p: &str| p@).len() == f.len());
    }
    if f.len() == 4 {
        proof {
            assert(f@.map_values(|p: &str| p@)[0] == f[0]@);
            assert(f@.map_values(|p: &str| p@)[1] == f[1]@);
            assert(f@.map_values(|p: &str| p@)[2] == f[2]@);
            assert(f@.map_values(|p: &str| p@)[3] == f[3]@);
        }
        let kw = trim(f[0]);
        let is_range = same_text(kw, "RANGE");
        let is_single = same_text(kw, "SINGLE");
        if is_range || is_single {
            let a = parse_i32(trim(f[1]));
            let b = parse_i32(trim(f[2]));
            let host = trim(f[3]).to_owned();
            match (a, b) {
                (Some(x), Some(y)) => {
                    if is_range {
                        ParsedLine::Entry(
                            nat_cell::RANGE { port_start: x, port_end: y, remote_domain: host },
                        )
                    } else {
                        ParsedLine::Entry(
                            nat_cell::SINGLE { local_port: x, remote_port: y, remote_domain: host },
                        )
                    }
                },
                _ => ParsedLine::BadNumber,
            }
        } else {
            ParsedLine::Unknown
        }
    } else if t.unicode_len() != 0 {
        ParsedLine::Malformed
    } else {
        ParsedLine::Blank
    }
}

/// The lines of a configuration text: the pieces between line feeds, with
/// the carriage return of each CRLF pair dropped.
pub open spec fn config_lines(text: Seq<char>) -> Seq<Seq<char>> {
    let pieces = split_on(text, '\n');
    Seq::new(
        pieces.len(),
        |i: int|
            if i + 1 < pieces.len() && pieces[i].len() > 0 && pieces[i].last() == '\r' {
                pieces[i].drop_last()
            } else {
                pieces[i]
            },
    )
}

/// Reading a sequence of lines in order: the entries and the malformed lines,
/// or the index of the first line whose port does not read as an `i32`.
pub open spec fn parse_lines(lines: Seq<Seq<char>>) -> Result<(Seq<CellView>, Seq<Seq<char>>), nat>
    decreases lines.len(),
{
    if lines.len() == 0 {
        Ok((Seq::empty(), Seq::empty()))
    } else {
        match parse_lines(lines.drop_last()) {
            Err(k) => Err(k),
            Ok((cells, bad)) => match line_kind(lines.last()) {
                LineKind::Entry(c) => Ok((cells.push(c), bad)),
                LineKind::Malformed => Ok((cells, bad.push(lines.last()))),
                LineKind::BadNumber => Err((lines.len() - 1) as nat),
                _ => Ok((cells, bad)),
            },
        }
    }
}

/// Once a prefix of the lines fails, so does every longer sequence, at the
/// same line.
proof fn lemma_failure_persists(lines: Seq<Seq<char>>, j: int, k: nat)
    requires
        0 <= j <= lines.len(),
        parse_lines(lines.subrange(0, j)) == Err::<(Seq<CellView>, Seq<Seq<char>>), nat>(k),
    ensures
        parse_lines(lines) == Err::<(Seq<CellView>, Seq<Seq<char>>), nat>(k),
    decreases lines.len() - j,
{
    if j == lines.len() {
        assert(lines.subrange(0, j) =~= lines);
    } else {
        assert(lines.subrange(0, j + 1).drop_last() =~= lines.subrange(0, j));
        lemma_failure_persists(lines, j + 1, k);
    }
}

proof fn lemma_failure_index(lines: Seq<Seq<char>>)
    ensures
        parse_lines(lines) matches Err(j) ==> j < lines.len(),
    decreases lines.len(),
{
    if lines.len() > 0 {
        lemma_failure_index(lines.drop_last());
    }
}

/// Whether `longer` is `shorter` with `x` inserted at some position.
pub open spec fn inserted_once(longer: Seq<Seq<char>>, shorter: Seq<Seq<char>>, x: Seq<char>) -> bool {
    exists|m: int| 0 <= m <= shorter.len() && longer == shorter.insert(m, x)
}

/// How reading `lines` relates to reading them without line `k`, when that
/// line is only reported.
pub open spec fn skip_relation(lines: Seq<Seq<char>>, k: int) -> bool {
    match (parse_lines(lines), parse_lines(lines.remove(k))) {
        (Ok((c1, w1)), Ok((c2, w2))) => c1 == c2 && inserted_once(w1, w2, lines[k]),
        (Err(i), Err(j)) => i == if j < k {
            j
        } else {
            j + 1
        },
        _ => false,
    }
}

/// A malformed line (non-blank, without four fields) does not stop the
/// reading: the entries are those read from the other lines, the line is
/// added to the reported ones, and reading fails exactly where it fails
/// without that line.
pub proof fn lemma_malformed_line_skipped(lines: Seq<Seq<char>>, k: int)
    requires
        0 <= k < lines.len(),
        line_kind(lines[k]) is Malformed,
    ensures
        skip_relation(lines, k),
    decreases lines.len(),
{
    let d = lines.drop_last();
    let l = lines.last();
    if k == lines.len() - 1 {
        assert(lines.remove(k) =~= d);
        lemma_failure_index(d);
        if let Ok((c, w)) = parse_lines(d) {
            assert(w.push(lines[k]) =~= w.insert(w.len() as int, lines[k]));
            assert(inserted_once(w.push(l), w, lines[k]));
            assert(parse_lines(lines) == Ok::<_, nat>((c, w.push(l))));
        }
    } else {
        lemma_malformed_line_skipped(d, k);
        assert(d[k] == lines[k]);
        let dr = d.remove(k);
        lemma_failure_index(dr);
        let r = lines.remove(k);
        assert(r.drop_last() =~= dr);
        assert(r.last() == l);
        assert(r.len() == lines.len() - 1);
        match (parse_lines(d), parse_lines(dr)) {
            (Ok((c1, w1)), Ok((c2, w2))) => {
                let m = choose|m: int| 0 <= m <= w2.len() && w1 == w2.insert(m, lines[k]);
                assert(w1 == w2.insert(m, lines[k]));
                match line_kind(l) {
                    LineKind::Entry(c) => {
                        assert(parse_lines(lines) == Ok::<_, nat>((c1.push(c), w1)));
                        assert(parse_lines(r) == Ok::<_, nat>((c2.push(c), w2)));
                        assert(inserted_once(w1, w2, lines[k]));
                    },
                    LineKind::Malformed => {
                        assert(w1.push(l) =~= w2.push(l).insert(m, lines[k]));
                        assert(inserted_once(w1.push(l), w2.push(l), lines[k]));
                        assert(parse_lines(lines) == Ok::<_, nat>((c1, w1.push(l))));
                        assert(parse_lines(r) == Ok::<_, nat>((c2, w2.push(l))));
                    },
                    LineKind::BadNumber => {
                        assert(parse_lines(lines) == Err::<(Seq<CellView>, Seq<Seq<char>>), nat>(
                            (lines.len() - 1) as nat,
                        ));
                        assert(parse_lines(r) == Err::<(Seq<CellView>, Seq<Seq<char>>), nat>(
                            (r.len() - 1) as nat,
                        ));
                    },
                    _ => {
                        assert(parse_lines(lines) == Ok::<_, nat>((c1, w1)));
                        assert(parse_lines(r) == Ok::<_, nat>((c2, w2)));
                    },
                }
            },
            _ => {},
        }
    }
}

/// The entries of a configuration, and its lines that were skipped as
/// malformed (non-blank, without exactly four fields).
pub struct ParsedConfig {
    pub cells: Vec<nat_cell>,
    pub invalid_lines: Vec<String>,
}

/// A line whose port field is not an `i32`; the configuration is unusable.
pub struct PortError {
    /// Index of the line, counted from 0.
    pub line: usize,
    /// The line as it stands in the configuration.
    pub text: String,
}

/// Parses a whole configuration text, keeping declaration order.
pub fn parse_config(text: &str) -> (r: Result<ParsedConfig, PortError>)
    ensures
        match (r, parse_lines(config_lines(text@))) {
            (Ok(p), Ok((cells, bad))) => p.cells@.map_values(|c: nat_cell| c@) == cells
                && p.invalid_lines@.map_values(|l: String| l@) == bad,
            (Err(e), Err(k)) => e.line == k && e.text@ == config_lines(text@)[k as int],
            _ => false,
        },
{
    let pieces = split_on_char(text, '\n');
    let ghost lines = config_lines(text@);
    proof {
        assert(pieces@.map_values(|p: &str| p@).len() == pieces.len());
    }
    let mut cells: Vec<nat_cell> = Vec::new();
    let mut invalid: Vec<String> = Vec::new();
    let mut i: usize = 0;
    assert(lines.subrange(0, 0) =~= Seq::<Seq<char>>::empty());
    assert(cells@.map_values(|c: nat_cell| c@) =~= Seq::<CellView>::empty());
    assert(invalid@.map_values(|l: String| l@) =~= Seq::<Seq<char>>::empty());
    while i < pieces.len()
        invariant
            i <= pieces.len(),
            lines == config_lines(text@),
            lines.len() == pieces.len(),
            pieces@.map_values(|p: &str| p@) == split_on(text@, '\n'),
            parse_lines(lines.subrange(0, i as int)) == Ok::<_, nat>(
                (cells@.map_values(|c: nat_cell| c@), invalid@.map_values(|l: String| l@)),
            ),
        decreases pieces.len() - i,
    {
        let piece = pieces[i];
        let n = piece.unicode_len();
        let line = if i + 1 < pieces.len() && n > 0 && piece.get_char(n - 1) == '\r' {
            piece.substring_char(0, n - 1)
        } else {
            piece
        };
        proof {
            assert(pieces@.map_values(|p: &str| p@)[i as int] == piece@);
            assert(line@ =~= lines[i as int]);
            assert(lines.subrange(0, i + 1).drop_last() =~= lines.subrange(0, i as int));
        }
        match parse_line(line) {
            ParsedLine::Entry(c) => {
                let ghost before = cells@;
                cells.push(c);
                assert(cells@.map_values(|c: nat_cell| c@) =~= before.map_values(
                    |c: nat_cell| c@,
                ).push(c@));
            },
            ParsedLine::Malformed => {
                let ghost before = invalid@;
                let owned = line.to_owned();
                invalid.push(owned);
                assert(invalid@.map_values(|l: String| l@) =~= before.map_values(
                    |l: String| l@,
                ).push(line@));
            },
            ParsedLine::BadNumber => {
                proof {
                    lemma_failure_persists(lines, i + 1, i as nat);
                }
                return Err(PortError { line: i, text: line.to_owned() });
            },
            _ => {},
        }
        i = i + 1;
    }
    assert(lines.subrange(0, i as int) =~= lines);
    Ok(ParsedConfig { cells, invalid_lines: invalid })
}

} // verus!
