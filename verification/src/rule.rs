//! Configuration sentences: what each one means, token by token.

use crate::addr::find_in;
use crate::addr::parse_socket_addr;
use crate::addr::sock_of;
use crate::protoc::protoc_of;
use crate::protoc::str_eq;
use crate::protoc::to_protoc;
use crate::route::RouteInfo;
use crate::route::RouteInfoView;
use crate::text::digits_val;
use crate::text::is_unsigned_numeral;
use crate::text::numeral_digits;
use crate::text::parse_usize;
use crate::text::split_of;
use crate::text::split_on;
use crate::text::split_whitespace_of;
use crate::text::tokens_of;
use crate::visit::VisitInfo;
use crate::visit::VisitInfoView;
use crate::weights::divide;
use crate::weights::divided;
use vstd::prelude::*;
use vstd::string::StrSliceExecFns;

verus! {

/// One parsed configuration sentence, or the code of the error it earns:
/// a malformed sentence, an unknown second protocol, a bad address, or a
/// certificate sentence with an unknown source.
pub enum RuleType {
    Route(RouteInfo),
    Visit(VisitInfo),
    CertificateF(String, String),
    CertificateS(String, String),
    State(Option<String>),
    Shutdown(String),
    Fail(u8),
}

/// The mathematical content of a parsed sentence.
pub ghost enum RuleView {
    Route(RouteInfoView),
    Visit(VisitInfoView),
    CertificateF(Seq<char>, Seq<char>),
    CertificateS(Seq<char>, Seq<char>),
    State(Option<Seq<char>>),
    Shutdown(Seq<char>),
    Fail(u8),
}

impl View for RuleType {
    type V = RuleView;

    open spec fn view(&self) -> RuleView {
        match self {
            RuleType::Route(o) => RuleView::Route(o@),
            RuleType::Visit(o) => RuleView::Visit(o@),
            RuleType::CertificateF(a, b) => RuleView::CertificateF(a@, b@),
            RuleType::CertificateS(a, b) => RuleView::CertificateS(a@, b@),
            RuleType::State(o) => RuleView::State(
                match o {
                    Some(t) => Some(t@),
                    None => None,
                },
            ),
            RuleType::Shutdown(a) => RuleView::Shutdown(a@),
            RuleType::Fail(n) => RuleView::Fail(*n),
        }
    }
}

/// The weight one token contributes: its value when it is a numeral that
/// fits, zero otherwise.
pub open spec fn weight_of(t: Seq<char>) -> usize {
    if is_unsigned_numeral(t) && digits_val(numeral_digits(t)) <= usize::MAX {
        digits_val(numeral_digits(t)) as usize
    } else {
        0
    }
}

/// The weights a colon-joined token list denotes, before fitting.
pub open spec fn raw_weights(p: Seq<char>) -> Seq<usize> {
    split_of(p, ':').map_values(|t: Seq<char>| weight_of(t))
}

/// The weights fitted to the target count: a missing weight list becomes one
/// weight carrying the whole target count; a short list is padded with one
/// trailing entry carrying the number of targets left over; a long list is
/// cut to the target count.
pub open spec fn proportion_of(addr_len: nat, p: Option<Seq<char>>) -> Seq<usize> {
    match p {
        Option::None => seq![addr_len as usize],
        Option::Some(pt) => {
            let w = raw_weights(pt);
            if w.len() < addr_len {
                w.push((addr_len - w.len()) as usize)
            } else {
                w.take(addr_len as int)
            }
        },
    }
}

pub open spec fn spec_opt_text(p: Option<&str>) -> Option<Seq<char>> {
    match p {
        Option::Some(t) => Option::Some(t@),
        Option::None => Option::None,
    }
}

/// Split the comma-joined targets and fit the colon-joined weights to them.
pub fn some_addr_proportion(a: &str, p: Option<&str>) -> (r: (Vec<String>, Vec<usize>))
    ensures
        r.0.deep_view() == split_of(a@, ','),
        r.1@ == proportion_of(split_of(a@, ',').len(), spec_opt_text(p)),
{
    let addrs = split_on(a, ',');
    let n = addrs.len();
    proof {
        assert(addrs.deep_view().len() == addrs@.len());
    }
    let proportion: Vec<usize> = match p {
        Option::Some(pt) => {
            let ws = split_on(pt, ':');
            let mut vals: Vec<usize> = Vec::new();
            let mut i: usize = 0;
            while i < ws.len()
                invariant
                    i <= ws@.len(),
                    ws.deep_view() == split_of(pt@, ':'),
                    vals@.len() == i,
                    forall|t: int|
                        0 <= t < i ==> #[trigger] vals@[t] == weight_of(ws.deep_view()[t]),
                decreases ws@.len() - i,
            {
                proof {
                    assert(ws.deep_view()[i as int] == ws@[i as int]@);
                }
                let v = match parse_usize(ws[i].as_str()) {
                    Some(v) => v,
                    None => 0,
                };
                vals.push(v);
                i += 1;
            }
            proof {
                assert(vals@ =~= raw_weights(pt@));
            }
            if vals.len() < n {
                vals.push(n - vals.len());
                proof {
                    assert(vals@ =~= proportion_of(addrs@.len() as nat, spec_opt_text(p)));
                }
                vals
            } else {
                let mut cut: Vec<usize> = Vec::new();
                let mut k: usize = 0;
                while k < n
                    invariant
                        k <= n <= vals@.len(),
                        vals@ == raw_weights(pt@),
                        cut@ == raw_weights(pt@).take(k as int),
                    decreases n - k,
                {
                    cut.push(vals[k]);
                    proof {
                        assert(cut@ =~= raw_weights(pt@).take(k + 1));
                    }
                    k += 1;
                }
                proof {
                    assert(cut@ =~= proportion_of(addrs@.len() as nat, spec_opt_text(p)));
                }
                cut
            }
        },
        Option::None => {
            let mut vals: Vec<usize> = Vec::new();
            vals.push(n);
            proof {
                assert(vals@ =~= proportion_of(addrs@.len() as nat, spec_opt_text(p)));
            }
            vals
        },
    };
    (addrs, proportion)
}

/// Every target token denotes a socket address.
pub open spec fn targets_sound(ts: Seq<Seq<char>>) -> bool {
    forall|i: int| 0 <= i < ts.len() ==> sock_of(#[trigger] ts[i]) is Some
}

/// What a transfer sentence means, given its tokens: the first token names
/// one protocol or a dash-joined pair; the second must be a socket address;
/// with a third, the sentence defines a route over the comma-joined targets,
/// every one a socket address, and the optional fourth token weights them;
/// without a third, it defines a visit.
pub open spec fn parse_transfer(toks: Seq<Seq<char>>) -> RuleView
    recommends
        toks.len() >= 1,
{
    let head = toks[0];
    let d = find_in(head, '-');
    let p1t = if d >= head.len() {
        head
    } else {
        head.take(d)
    };
    let p2t = if d >= head.len() {
        head
    } else {
        head.skip(d + 1)
    };
    match protoc_of(p1t) {
        Option::None => RuleView::Fail(1),
        Option::Some(p1) => match protoc_of(p2t) {
            Option::None => RuleView::Fail(2),
            Option::Some(p2) => {
                if toks.len() < 2 {
                    RuleView::Fail(1)
                } else if sock_of(toks[1]) is None {
                    RuleView::Fail(3)
                } else if toks.len() < 3 {
                    RuleView::Visit(
                        VisitInfoView { server_protoc: p1, server_addr: toks[1], remote_protoc: p2 },
                    )
                } else {
                    let targets = split_of(toks[2], ',');
                    if !targets_sound(targets) {
                        RuleView::Fail(3)
                    } else {
                        let prop = proportion_of(
                            targets.len(),
                            if toks.len() >= 4 {
                                Option::Some(toks[3])
                            } else {
                                Option::None
                            },
                        );
                        RuleView::Route(
                            RouteInfoView {
                                server_protoc: p1,
                                server_addr: toks[1],
                                remote_protoc: p2,
                                remote_addrs: targets,
                                proportion: divided(prop),
                            },
                        )
                    }
                }
            },
        },
    }
}

/// What a sentence means: its whitespace-delimited tokens decide between a
/// certificate installation, a state query, a shutdown, and a transfer.
pub open spec fn parse_rule(s: Seq<char>) -> RuleView {
    let toks = tokens_of(s);
    if toks.len() == 0 {
        RuleView::Fail(1)
    } else if toks[0] == "certificate"@ {
        if toks.len() >= 4 {
            if toks[1] == "f"@ {
                RuleView::CertificateF(toks[2], toks[3])
            } else if toks[1] == "s"@ {
                RuleView::CertificateS(toks[2], toks[3])
            } else {
                RuleView::Fail(5)
            }
        } else {
            RuleView::Fail(1)
        }
    } else if toks[0] == "state"@ {
        RuleView::State(
            if toks.len() >= 2 {
                Option::Some(toks[1])
            } else {
                Option::None
            },
        )
    } else if toks[0] == "shutdown"@ {
        if toks.len() >= 2 {
            RuleView::Shutdown(toks[1])
        } else {
            RuleView::Fail(1)
        }
    } else {
        parse_transfer(toks)
    }
}

impl RuleType {
    /// Read one sentence.
    pub fn from(s: String) -> (r: Self)
        ensures
            r@ == parse_rule(s@),
    {
        let toks = split_whitespace_of(s.as_str());
        if toks.len() == 0 {
            return RuleType::Fail(1);
        }
        proof {
            assert(toks.deep_view()[0] == toks@[0]@);
            if toks@.len() >= 2 {
                assert(toks.deep_view()[1] == toks@[1]@);
            }
            if toks@.len() >= 3 {
                assert(toks.deep_view()[2] == toks@[2]@);
            }
            if toks@.len() >= 4 {
                assert(toks.deep_view()[3] == toks@[3]@);
            }
        }
        if str_eq(toks[0].as_str(), "certificate") {
            proof {
                reveal_strlit("certificate");
            }
            if toks.len() >= 4 {
                if str_eq(toks[1].as_str(), "f") {
                    proof {
                        reveal_strlit("f");
                    }
                    return RuleType::CertificateF(toks[2].clone(), toks[3].clone());
                }
                if str_eq(toks[1].as_str(), "s") {
                    proof {
                        reveal_strlit("s");
                    }
                    return RuleType::CertificateS(toks[2].clone(), toks[3].clone());
                }
                proof {
                    reveal_strlit("f");
                    reveal_strlit("s");
                }
                return RuleType::Fail(5);
            }
            return RuleType::Fail(1);
        }
        if str_eq(toks[0].as_str(), "state") {
            proof {
                reveal_strlit("certificate");
                reveal_strlit("state");
            }
            if toks.len() >= 2 {
                return RuleType::State(Some(toks[1].clone()));
            }
            return RuleType::State(None);
        }
        if str_eq(toks[0].as_str(), "shutdown") {
            proof {
                reveal_strlit("certificate");
                reveal_strlit("state");
                reveal_strlit("shutdown");
            }
            if toks.len() >= 2 {
                return RuleType::Shutdown(toks[1].clone());
            }
            return RuleType::Fail(1);
        }
        proof {
            reveal_strlit("certificate");
            reveal_strlit("state");
            reveal_strlit("shutdown");
        }
        // a transfer sentence: one protocol, or a dash-joined pair
        let head = toks[0].as_str();
        let d = crate::addr::find_char(head, '-');
        let hn = head.unicode_len();
        let (p1t, p2t): (String, String) = if d >= hn {
            (toks[0].clone(), toks[0].clone())
        } else {
            (head.substring_char(0, d).to_owned(), head.substring_char(d + 1, hn).to_owned())
        };
        proof {
            let hd = toks.deep_view()[0];
            if d >= hn {
                assert(p1t@ == hd && p2t@ == hd);
            } else {
                assert(p1t@ =~= hd.take(d as int));
                assert(p2t@ =~= hd.skip(d as int + 1));
            }
        }
        let p1 = match to_protoc(p1t.as_str()) {
            Some(v) => v,
            None => {
                return RuleType::Fail(1);
            },
        };
        let p2 = match to_protoc(p2t.as_str()) {
            Some(v) => v,
            None => {
                return RuleType::Fail(2);
            },
        };
        if toks.len() < 2 {
            return RuleType::Fail(1);
        }
        if parse_socket_addr(toks[1].as_str()).is_none() {
            return RuleType::Fail(3);
        }
        if toks.len() < 3 {
            return RuleType::Visit(VisitInfo::new(p1, toks[1].clone(), p2));
        }
        // validate every comma-joined target
        let targets = split_on(toks[2].as_str(), ',');
        let mut i: usize = 0;
        while i < targets.len()
            invariant
                i <= targets@.len(),
                toks.deep_view().len() >= 3,
                targets.deep_view() == split_of(toks.deep_view()[2], ','),
                forall|t: int|
                    0 <= t < i ==> sock_of(#[trigger] targets.deep_view()[t]) is Some,
                !targets_sound(targets.deep_view()) ==> parse_rule(s@) == RuleView::Fail(3),
                targets_sound(targets.deep_view()) ==> parse_rule(s@) == RuleView::Route(
                    (RouteInfoView {
                        server_protoc: p1,
                        server_addr: toks.deep_view()[1],
                        remote_protoc: p2,
                        remote_addrs: targets.deep_view(),
                        proportion: divided(
                            proportion_of(
                                targets.deep_view().len(),
                                if toks.deep_view().len() >= 4 {
                                    Option::Some(toks.deep_view()[3])
                                } else {
                                    Option::None
                                },
                            ),
                        ),
                    }),
                ),
            decreases targets@.len() - i,
        {
            proof {
                assert(targets.deep_view()[i as int] == targets@[i as int]@);
            }
            if parse_socket_addr(targets[i].as_str()).is_none() {
                return RuleType::Fail(3);
            }
            i += 1;
        }
        let w = if toks.len() >= 4 {
            Some(toks[3].as_str())
        } else {
            None
        };
        proof {
            assert(spec_opt_text(w) == (if toks.deep_view().len() >= 4 {
                Option::Some(toks.deep_view()[3])
            } else {
                Option::<Seq<char>>::None
            }));
        }
        let (ra, mut proportion) = some_addr_proportion(toks[2].as_str(), w);
        divide(&mut proportion);
        let out = RuleType::Route(RouteInfo::new(p1, toks[1].clone(), p2, ra, proportion));
        proof {
            assert(targets_sound(targets.deep_view()));
        }
        out
    }
}

/// Tokens joined by one separator between neighbours.
pub open spec fn join_with(ts: Seq<Seq<char>>, sep: char) -> Seq<char>
    decreases ts.len(),
{
    if ts.len() == 0 {
        Seq::empty()
    } else if ts.len() == 1 {
        ts[0]
    } else {
        join_with(ts.drop_last(), sep) + seq![sep] + ts.last()
    }
}

/// Weights joined by colons, each in decimal.
pub open spec fn join_weights(ws: Seq<usize>) -> Seq<char>
    decreases ws.len(),
{
    if ws.len() == 0 {
        Seq::empty()
    } else if ws.len() == 1 {
        crate::text::numeral_of(ws[0] as nat)
    } else {
        join_weights(ws.drop_last()) + seq![':'] + crate::text::numeral_of(ws.last() as nat)
    }
}

/// A protocol pair as a sentence writes it: one token when both sides agree,
/// a dash-joined pair otherwise.
pub open spec fn protoc_pair_text(p1: crate::protoc::Protoc, p2: crate::protoc::Protoc) -> Seq<
    char,
> {
    if p1 == p2 {
        crate::protoc::protoc_text(p1)
    } else {
        crate::protoc::protoc_text(p1) + "-"@ + crate::protoc::protoc_text(p2)
    }
}

/// The canonical text of a parsed sentence: its tokens, single-spaced. A
/// failed parse has no text.
pub open spec fn format_rule(r: RuleView) -> Seq<char> {
    match r {
        RuleView::Route(o) => protoc_pair_text(o.server_protoc, o.remote_protoc) + " "@
            + o.server_addr + " "@ + join_with(o.remote_addrs, ',') + " "@ + join_weights(
            o.proportion,
        ),
        RuleView::Visit(o) => protoc_pair_text(o.server_protoc, o.remote_protoc) + " "@
            + o.server_addr,
        RuleView::CertificateF(a, b) => "certificate f "@ + a + " "@ + b,
        RuleView::CertificateS(a, b) => "certificate s "@ + a + " "@ + b,
        RuleView::State(q) => match q {
            Option::Some(a) => "state "@ + a,
            Option::None => "state"@,
        },
        RuleView::Shutdown(a) => "shutdown "@ + a,
        RuleView::Fail(_) => Seq::empty(),
    }
}

fn protoc_string(p: crate::protoc::Protoc) -> (r: String)
    ensures
        r@ == crate::protoc::protoc_text(p),
{
    proof {
        reveal_strlit("http");
        reveal_strlit("http_pt");
        reveal_strlit("tcp");
        reveal_strlit("tls");
        reveal_strlit("udp");
    }
    match p {
        crate::protoc::Protoc::HTTP => "http".to_owned(),
        crate::protoc::Protoc::HTTPPT => "http_pt".to_owned(),
        crate::protoc::Protoc::TCP => "tcp".to_owned(),
        crate::protoc::Protoc::TLS => "tls".to_owned(),
        crate::protoc::Protoc::UDP => "udp".to_owned(),
    }
}

fn append_pair(out: &mut String, p1: crate::protoc::Protoc, p2: crate::protoc::Protoc)
    ensures
        final (out)@ == old(out)@ + protoc_pair_text(p1, p2),
{
    let first = protoc_string(p1);
    out.append(first.as_str());
    if !crate::protoc::str_eq(protoc_string(p1).as_str(), protoc_string(p2).as_str()) {
        proof {
            reveal_strlit("-");
        }
        out.append("-");
        let second = protoc_string(p2);
        out.append(second.as_str());
        proof {
            assert(p1 != p2) by {
                crate::protoc::lemma_protoc_text_reads_back(p1);
                crate::protoc::lemma_protoc_text_reads_back(p2);
            }
            assert(out@ =~= old(out)@ + protoc_pair_text(p1, p2));
        }
    } else {
        proof {
            assert(p1 == p2) by {
                crate::protoc::lemma_protoc_text_reads_back(p1);
                crate::protoc::lemma_protoc_text_reads_back(p2);
            }
        }
    }
}

fn append_joined(out: &mut String, ts: &Vec<String>)
    ensures
        final (out)@ == old(out)@ + join_with(ts.deep_view(), ','),
{
    let mut i: usize = 0;
    while i < ts.len()
        invariant
            i <= ts@.len(),
            out@ == old(out)@ + join_with(ts.deep_view().take(i as int), ','),
        decreases ts@.len() - i,
    {
        proof {
            reveal_strlit(",");
            assert(ts.deep_view()[i as int] == ts@[i as int]@);
            assert(ts.deep_view().take(i + 1).drop_last() =~= ts.deep_view().take(i as int));
            assert(ts.deep_view().take(i + 1).last() == ts.deep_view()[i as int]);
        }
        if i > 0 {
            out.append(",");
        }
        out.append(ts[i].as_str());
        proof {
            if i == 0 {
                assert(ts.deep_view().take(1) =~= seq![ts.deep_view()[0]]);
                assert(out@ =~= old(out)@ + join_with(ts.deep_view().take(1), ','));
            } else {
                assert(out@ =~= old(out)@ + join_with(ts.deep_view().take(i + 1), ','));
            }
        }
        i += 1;
    }
    proof {
        assert(ts.deep_view().take(ts.deep_view().len() as int) =~= ts.deep_view());
    }
}

fn append_weights(out: &mut String, ws: &Vec<usize>)
    ensures
        final (out)@ == old(out)@ + join_weights(ws@),
{
    let mut i: usize = 0;
    while i < ws.len()
        invariant
            i <= ws@.len(),
            out@ == old(out)@ + join_weights(ws@.take(i as int)),
        decreases ws@.len() - i,
    {
        proof {
            reveal_strlit(":");
            assert(ws@.take(i + 1).drop_last() =~= ws@.take(i as int));
            assert(ws@.take(i + 1).last() == ws@[i as int]);
        }
        if i > 0 {
            out.append(":");
        }
        let t = crate::text::format_usize(ws[i]);
        out.append(t.as_str());
        proof {
            if i == 0 {
                assert(ws@.take(1) =~= seq![ws@[0]]);
                assert(out@ =~= old(out)@ + join_weights(ws@.take(1)));
            } else {
                assert(out@ =~= old(out)@ + join_weights(ws@.take(i + 1)));
            }
        }
        i += 1;
    }
    proof {
        assert(ws@.take(ws@.len() as int) =~= ws@);
    }
}

impl RuleType {
    /// Write a parsed sentence back as text: its canonical, single-spaced
    /// form.
    pub fn format(&self) -> (r: String)
        ensures
            r@ == format_rule(self@),
    {
        proof {
            reveal_strlit(" ");
            reveal_strlit("certificate f ");
            reveal_strlit("certificate s ");
            reveal_strlit("state ");
            reveal_strlit("state");
            reveal_strlit("shutdown ");
        }
        match self {
            RuleType::Route(o) => {
                let mut out = String::new();
                append_pair(&mut out, o.server_protoc, o.remote_protoc);
                out.append(" ");
                out.append(o.server_addr.as_str());
                out.append(" ");
                append_joined(&mut out, &o.remote_addrs);
                out.append(" ");
                append_weights(&mut out, &o.proportion);
                proof {
                    assert(out@ =~= format_rule(self@));
                }
                out
            },
            RuleType::Visit(o) => {
                let mut out = String::new();
                append_pair(&mut out, o.server_protoc, o.remote_protoc);
                out.append(" ");
                out.append(o.server_addr.as_str());
                proof {
                    assert(out@ =~= format_rule(self@));
                }
                out
            },
            RuleType::CertificateF(a, b) => {
                let mut out = "certificate f ".to_owned();
                out.append(a.as_str());
                out.append(" ");
                out.append(b.as_str());
                proof {
                    assert(out@ =~= format_rule(self@));
                }
                out
            },
            RuleType::CertificateS(a, b) => {
                let mut out = "certificate s ".to_owned();
                out.append(a.as_str());
                out.append(" ");
                out.append(b.as_str());
                proof {
                    assert(out@ =~= format_rule(self@));
                }
                out
            },
            RuleType::State(q) => match q {
                Some(a) => {
                    let mut out = "state ".to_owned();
                    out.append(a.as_str());
                    proof {
                        assert(out@ =~= format_rule(self@));
                    }
                    out
                },
                None => "state".to_owned(),
            },
            RuleType::Shutdown(a) => {
                let mut out = "shutdown ".to_owned();
                out.append(a.as_str());
                proof {
                    assert(out@ =~= format_rule(self@));
                }
                out
            },
            RuleType::Fail(_) => String::new(),
        }
    }
}

/// A sentence's canonical form: its tokens, single-spaced.
pub open spec fn canonical(s: Seq<char>) -> Seq<char> {
    join_with(tokens_of(s), ' ')
}

proof fn lemma_find_in_found<A>(s: Seq<A>, c: A)
    ensures
        0 <= find_in(s, c) <= s.len(),
        find_in(s, c) < s.len() ==> s[find_in(s, c)] == c,
    decreases s.len(),
{
    if s.len() > 0 && s[0] != c {
        lemma_find_in_found(s.skip(1), c);
    }
}

proof fn lemma_protoc_of_text(t: Seq<char>, p: crate::protoc::Protoc)
    requires
        protoc_of(t) == Some(p),
    ensures
        t == crate::protoc::protoc_text(p),
{
}

/// Splitting at a separator and joining with it again gives the text back.
proof fn lemma_join_split(t: Seq<char>, sep: char)
    ensures
        join_with(split_of(t, sep), sep) == t,
    decreases t.len(),
{
    crate::text::lemma_split_nonempty(t, sep);
    if t.len() == 0 {
        assert(join_with(split_of(t, sep), sep) =~= t);
    } else {
        let front = t.drop_last();
        let c = t.last();
        lemma_join_split(front, sep);
        let rest = split_of(front, sep);
        crate::text::lemma_split_nonempty(front, sep);
        if c == sep {
            assert(split_of(t, sep) == rest.push(Seq::<char>::empty()));
            assert(rest.push(Seq::<char>::empty()).drop_last() =~= rest);
            assert(join_with(split_of(t, sep), sep) == join_with(rest, sep) + seq![sep]
                + Seq::<char>::empty());
            assert(join_with(rest, sep) + seq![sep] + Seq::<char>::empty() =~= t);
        } else {
            let upd = rest.update(rest.len() - 1, rest.last().push(c));
            assert(split_of(t, sep) == upd);
            if rest.len() == 1 {
                assert(upd.len() == 1);
                assert(join_with(upd, sep) == upd[0]);
                assert(upd[0] == rest[0].push(c));
                assert(join_with(rest, sep) == rest[0]);
                assert(rest[0].push(c) =~= t);
            } else {
                assert(upd.drop_last() =~= rest.drop_last());
                assert(upd.last() == rest.last().push(c));
                assert(join_with(upd, sep) == join_with(rest.drop_last(), sep) + seq![sep]
                    + rest.last().push(c));
                assert(join_with(rest, sep) == join_with(rest.drop_last(), sep) + seq![sep]
                    + rest.last());
                assert(join_with(rest.drop_last(), sep) + seq![sep] + rest.last().push(c) =~= (
                join_with(rest.drop_last(), sep) + seq![sep] + rest.last()).push(c));
                assert((join_with(rest, sep)).push(c) =~= t);
            }
        }
    }
}

/// A weight token that reads back as it was written: a plain numeral without
/// a leading zero, whose value fits.
pub open spec fn canonical_weight(t: Seq<char>) -> bool {
    t.len() >= 1 && crate::text::all_digits(t) && (t[0] != '0' || t.len() == 1) && digits_val(t)
        <= usize::MAX
}

proof fn lemma_weight_reads_back(t: Seq<char>)
    requires
        canonical_weight(t),
    ensures
        crate::text::numeral_of(weight_of(t) as nat) == t,
{
    assert(t[0] != '+');
    assert(is_unsigned_numeral(t));
    assert(numeral_digits(t) == t);
    crate::text::lemma_numeral_of_canon(t);
}

proof fn lemma_join_weights_canon(ts: Seq<Seq<char>>)
    requires
        forall|i: int| 0 <= i < ts.len() ==> canonical_weight(#[trigger] ts[i]),
    ensures
        join_weights(ts.map_values(|t: Seq<char>| weight_of(t))) == join_with(ts, ':'),
    decreases ts.len(),
{
    let m = ts.map_values(|t: Seq<char>| weight_of(t));
    if ts.len() == 0 {
    } else if ts.len() == 1 {
        lemma_weight_reads_back(ts[0]);
        assert(join_weights(m) == crate::text::numeral_of(m[0] as nat));
    } else {
        assert(forall|i: int|
            0 <= i < ts.drop_last().len() ==> canonical_weight(#[trigger] ts.drop_last()[i]));
        lemma_join_weights_canon(ts.drop_last());
        lemma_weight_reads_back(ts.last());
        assert(m.drop_last() =~= ts.drop_last().map_values(|t: Seq<char>| weight_of(t)));
        assert(m.last() == weight_of(ts.last()));
        assert(join_weights(m) == join_weights(m.drop_last()) + seq![':']
            + crate::text::numeral_of(m.last() as nat));
    }
}

/// The side conditions under which a sentence's text survives the round
/// trip: no token beyond what the sentence form uses, a protocol pair only
/// when the two differ, as many weights as targets, every weight written
/// canonically, and weights that normalization leaves alone.
/// A first token that writes back as it was read: a dash appears in it only
/// between two distinct protocols.
pub open spec fn head_pair_ok(head: Seq<char>) -> bool {
    find_in(head, '-') < head.len() ==> protoc_of(head.take(find_in(head, '-'))) != protoc_of(
        head.skip(find_in(head, '-') + 1),
    )
}

pub open spec fn round_trip_ready(s: Seq<char>) -> bool {
    let toks = tokens_of(s);
    match parse_rule(s) {
        RuleView::Route(_) => {
            let ws = split_of(toks[3], ':');
            toks.len() == 4 && head_pair_ok(toks[0]) && (forall|i: int|
                0 <= i < ws.len() ==> canonical_weight(#[trigger] ws[i])) && ws.len() == split_of(
                toks[2],
                ',',
            ).len() && divided(raw_weights(toks[3])) == raw_weights(toks[3])
        },
        RuleView::Visit(_) => toks.len() == 2 && head_pair_ok(toks[0]),
        RuleView::CertificateF(_, _) => toks.len() == 4,
        RuleView::CertificateS(_, _) => toks.len() == 4,
        RuleView::State(q) => (q is Some && toks.len() == 2) || (q is None && toks.len() == 1),
        RuleView::Shutdown(_) => toks.len() == 2,
        RuleView::Fail(_) => false,
    }
}

/// Reading a sentence and writing it back gives the sentence in canonical
/// form: the same tokens, single-spaced. The sentence must use no more
/// tokens than its form carries, write a dash-joined protocol pair only for
/// two distinct protocols, and give exactly one canonically written weight
/// per target, with no common factor for normalization to take out; a
/// sentence such as a route whose weights all share a factor of two is
/// reproduced with the normalized weights instead.
pub proof fn parse_format_round_trip(s: Seq<char>)
    requires
        round_trip_ready(s),
    ensures
        format_rule(parse_rule(s)) == canonical(s),
{
    let toks = tokens_of(s);
    reveal_strlit("certificate");
    reveal_strlit("f");
    reveal_strlit("s");
    reveal_strlit("state");
    reveal_strlit("shutdown");
    reveal_strlit("certificate f ");
    reveal_strlit("certificate s ");
    reveal_strlit("state ");
    reveal_strlit("shutdown ");
    reveal_strlit(" ");
    reveal_strlit("-");
    match parse_rule(s) {
        RuleView::Route(o) => {
            lemma_transfer_head_reads_back(s);
            let targets = split_of(toks[2], ',');
            let ws = split_of(toks[3], ':');
            lemma_join_split(toks[2], ',');
            lemma_join_split(toks[3], ':');
            lemma_join_weights_canon(ws);
            assert(o.remote_addrs == targets);
            assert(raw_weights(toks[3]).len() == targets.len());
            assert(proportion_of(targets.len(), Option::Some(toks[3])) =~= raw_weights(toks[3]));
            assert(o.proportion == raw_weights(toks[3]));
            assert(join_weights(o.proportion) == toks[3]);
            assert(canonical(s) == join_with(toks.drop_last(), ' ') + seq![' '] + toks[3]);
            assert(toks.drop_last().drop_last() =~= toks.take(2));
            assert(join_with(toks.drop_last(), ' ') == join_with(toks.take(2), ' ') + seq![' ']
                + toks[2]);
            assert(toks.take(2).drop_last() =~= seq![toks[0]]);
            assert(join_with(toks.take(2), ' ') == toks[0] + seq![' '] + toks[1]) by {
                assert(join_with(seq![toks[0]], ' ') == toks[0]);
            }
            assert(format_rule(parse_rule(s)) =~= canonical(s));
        },
        RuleView::Visit(o) => {
            lemma_transfer_head_reads_back(s);
            assert(toks.drop_last() =~= seq![toks[0]]);
            assert(join_with(toks, ' ') == join_with(seq![toks[0]], ' ') + seq![' '] + toks[1]);
            assert(join_with(seq![toks[0]], ' ') == toks[0]);
            assert(format_rule(parse_rule(s)) =~= canonical(s));
        },
        RuleView::CertificateF(a, b) => {
            assert(a == toks[2] && b == toks[3]);
            lemma_small_join(toks, ' ');
            assert("certificate f "@ =~= "certificate"@ + seq![' '] + "f"@ + seq![' ']);
            assert(format_rule(parse_rule(s)) =~= canonical(s));
        },
        RuleView::CertificateS(a, b) => {
            assert(a == toks[2] && b == toks[3]);
            lemma_small_join(toks, ' ');
            assert("certificate s "@ =~= "certificate"@ + seq![' '] + "s"@ + seq![' ']);
            assert(format_rule(parse_rule(s)) =~= canonical(s));
        },
        RuleView::State(q) => {
            if q is Some {
                assert(toks.drop_last() =~= seq![toks[0]]);
                assert(join_with(toks, ' ') == join_with(seq![toks[0]], ' ') + seq![' ']
                    + toks[1]);
                assert(join_with(seq![toks[0]], ' ') == toks[0]);
                assert("state "@ =~= "state"@ + seq![' ']);
                assert(format_rule(parse_rule(s)) =~= canonical(s));
            } else {
                assert(join_with(toks, ' ') == toks[0]);
                assert(format_rule(parse_rule(s)) =~= canonical(s));
            }
        },
        RuleView::Shutdown(_) => {
            assert(toks.drop_last() =~= seq![toks[0]]);
            assert(join_with(toks, ' ') == join_with(seq![toks[0]], ' ') + seq![' '] + toks[1]);
            assert(join_with(seq![toks[0]], ' ') == toks[0]);
            assert("shutdown "@ =~= "shutdown"@ + seq![' ']);
            assert(format_rule(parse_rule(s)) =~= canonical(s));
        },
        RuleView::Fail(_) => {
            assert(false);
        },
    }
}

/// Unfold the join of exactly four tokens.
proof fn lemma_small_join(toks: Seq<Seq<char>>, sep: char)
    requires
        toks.len() == 4,
    ensures
        join_with(toks, sep) == toks[0] + seq![sep] + toks[1] + seq![sep] + toks[2] + seq![sep]
            + toks[3],
{
    assert(toks.drop_last().drop_last() =~= toks.take(2));
    assert(toks.take(2).drop_last() =~= seq![toks[0]]);
    assert(join_with(seq![toks[0]], sep) == toks[0]);
    assert(join_with(toks.take(2), sep) == toks[0] + seq![sep] + toks[1]);
    assert(join_with(toks.drop_last(), sep) == join_with(toks.take(2), sep) + seq![sep]
        + toks[2]);
    assert(join_with(toks, sep) == join_with(toks.drop_last(), sep) + seq![sep] + toks[3]);
    assert(join_with(toks, sep) =~= toks[0] + seq![sep] + toks[1] + seq![sep] + toks[2]
        + seq![sep] + toks[3]);
}

/// For an accepted transfer sentence, the protocol pair writes back as its
/// first token, provided a dash-joined pair names two distinct protocols.
proof fn lemma_transfer_head_reads_back(s: Seq<char>)
    requires
        (parse_rule(s) matches RuleView::Route(o) && round_trip_ready(s)) || (parse_rule(s)
            matches RuleView::Visit(v) && round_trip_ready(s)),
    ensures
        parse_rule(s) matches RuleView::Route(o) ==> protoc_pair_text(
            o.server_protoc,
            o.remote_protoc,
        ) == tokens_of(s)[0] && o.server_addr == tokens_of(s)[1],
        parse_rule(s) matches RuleView::Visit(v) ==> protoc_pair_text(
            v.server_protoc,
            v.remote_protoc,
        ) == tokens_of(s)[0] && v.server_addr == tokens_of(s)[1],
{
    let toks = tokens_of(s);
    let head = toks[0];
    let d = find_in(head, '-');
    lemma_find_in_found(head, '-');
    if d >= head.len() {
        let p1 = protoc_of(head)->0;
        lemma_protoc_of_text(head, p1);
    } else {
        let p1 = protoc_of(head.take(d))->0;
        let p2 = protoc_of(head.skip(d + 1))->0;
        lemma_protoc_of_text(head.take(d), p1);
        lemma_protoc_of_text(head.skip(d + 1), p2);
        assert(head[d] == '-');
        assert(head.take(d) + "-"@ + head.skip(d + 1) =~= head) by {
            reveal_strlit("-");
            assert("-"@ =~= seq!['-']);
        }
        assert(protoc_pair_text(p1, p2) == head);
    }
}

} // verus!
