//! The report: one ranked line per probed candidate, and its rendering
//! into a fixed-column text table.
//!
//! Rendering is a pure function of the report value; printing or
//! persisting the text is left to the caller.

use vstd::prelude::*;
use vstd::string::StringExecFns;

verus! {

/// One row of the report: a candidate's identity and endpoint together
/// with its probe outcome. A missing latency means the candidate was
/// unreachable; missing city/country mean geolocation was skipped or
/// failed.
pub struct ReportLine {
    pub id: String,
    pub host: String,
    pub moniker: String,
    pub port: Option<u64>,
    pub latency_in_milliseconds: Option<u64>,
    pub city: Option<String>,
    pub country: Option<String>,
}

/// Ghost model of a `ReportLine`.
pub struct ReportLineView {
    pub id: Seq<char>,
    pub host: Seq<char>,
    pub moniker: Seq<char>,
    pub port: Option<u64>,
    pub latency_in_milliseconds: Option<u64>,
    pub city: Option<Seq<char>>,
    pub country: Option<Seq<char>>,
}

impl View for ReportLine {
    type V = ReportLineView;

    open spec fn view(&self) -> ReportLineView {
        ReportLineView {
            id: self.id@,
            host: self.host@,
            moniker: self.moniker@,
            port: self.port,
            latency_in_milliseconds: self.latency_in_milliseconds,
            city: self.city.deep_view(),
            country: self.country.deep_view(),
        }
    }
}

impl DeepView for ReportLine {
    type V = ReportLineView;

    open spec fn deep_view(&self) -> ReportLineView {
        self.view()
    }
}

impl Clone for ReportLine {
    fn clone(&self) -> (r: Self)
        ensures
            r@ == self@,
    {
        ReportLine {
            id: self.id.clone(),
            host: self.host.clone(),
            moniker: self.moniker.clone(),
            port: self.port,
            latency_in_milliseconds: self.latency_in_milliseconds,
            city: match &self.city {
                Some(c) => Some(c.clone()),
                None => None,
            },
            country: match &self.country {
                Some(c) => Some(c.clone()),
                None => None,
            },
        }
    }
}

/// The finished report: lines already in their final order.
pub struct Report {
    pub report_lines: Vec<ReportLine>,
}

impl View for Report {
    type V = Seq<ReportLineView>;

    open spec fn view(&self) -> Seq<ReportLineView> {
        self.report_lines.deep_view()
    }
}

/// The character of one decimal digit value.
pub open spec fn digit_char(d: nat) -> char {
    if d == 0 {
        '0'
    } else if d == 1 {
        '1'
    } else if d == 2 {
        '2'
    } else if d == 3 {
        '3'
    } else if d == 4 {
        '4'
    } else if d == 5 {
        '5'
    } else if d == 6 {
        '6'
    } else if d == 7 {
        '7'
    } else if d == 8 {
        '8'
    } else {
        '9'
    }
}

/// The decimal text of a number, most significant digit first, without
/// leading zeroes (zero itself is "0").
pub open spec fn spec_u64_string(n: nat) -> Seq<char>
    decreases n,
{
    if n < 10 {
        seq![digit_char(n)]
    } else {
        spec_u64_string(n / 10).push(digit_char(n % 10))
    }
}

/// One decimal digit as text.
fn digit_str(d: u64) -> (r: &'static str)
    requires
        d < 10,
    ensures
        r@ == seq![digit_char(d as nat)],
{
    match d {
        0 => {
            proof {
                reveal_strlit("0");
                assert("0"@ =~= seq![digit_char(0)]);
            }
            "0"
        },
        1 => {
            proof {
                reveal_strlit("1");
                assert("1"@ =~= seq![digit_char(1)]);
            }
            "1"
        },
        2 => {
            proof {
                reveal_strlit("2");
                assert("2"@ =~= seq![digit_char(2)]);
            }
            "2"
        },
        3 => {
            proof {
                reveal_strlit("3");
                assert("3"@ =~= seq![digit_char(3)]);
            }
            "3"
        },
        4 => {
            proof {
                reveal_strlit("4");
                assert("4"@ =~= seq![digit_char(4)]);
            }
            "4"
        },
        5 => {
            proof {
                reveal_strlit("5");
                assert("5"@ =~= seq![digit_char(5)]);
            }
            "5"
        },
        6 => {
            proof {
                reveal_strlit("6");
                assert("6"@ =~= seq![digit_char(6)]);
            }
            "6"
        },
        7 => {
            proof {
                reveal_strlit("7");
                assert("7"@ =~= seq![digit_char(7)]);
            }
            "7"
        },
        8 => {
            proof {
                reveal_strlit("8");
                assert("8"@ =~= seq![digit_char(8)]);
            }
            "8"
        },
        _ => {
            proof {
                reveal_strlit("9");
                assert("9"@ =~= seq![digit_char(9)]);
            }
            "9"
        },
    }
}

/// Writes a number as decimal text.
pub fn u64_to_string(n: u64) -> (r: String)
    ensures
        r@ == spec_u64_string(n as nat),
    decreases n,
{
    if n < 10 {
        String::from_str(digit_str(n))
    } else {
        let mut s = u64_to_string(n / 10);
        s.append(digit_str(n % 10));
        proof {
            assert(s@ =~= spec_u64_string((n / 10) as nat).push(digit_char((n % 10) as nat)));
        }
        s
    }
}

/// An optional text field as rendered: the text, or nothing.
pub open spec fn spec_opt_string(o: Option<Seq<char>>) -> Seq<char> {
    match o {
        Some(s) => s,
        None => Seq::empty(),
    }
}

/// The port column: the port, or the default zero when none is known.
pub open spec fn spec_port_string(p: Option<u64>) -> Seq<char> {
    match p {
        Some(v) => spec_u64_string(v as nat),
        None => spec_u64_string(0),
    }
}

/// The latency column: the round-trip time in milliseconds, or the
/// marker for an unreachable candidate.
pub open spec fn spec_latency_string(l: Option<u64>) -> Seq<char> {
    match l {
        Some(v) => spec_u64_string(v as nat),
        None => "Unreachable"@,
    }
}

/// One table row of the report.
pub open spec fn spec_render_line(l: ReportLineView) -> Seq<char> {
    "| "@ + l.host + " | "@ + l.id + " | "@ + l.moniker + " | "@ + spec_port_string(l.port) + " | "@
        + spec_latency_string(l.latency_in_milliseconds) + " | "@ + spec_opt_string(l.city) + " | "@
        + spec_opt_string(l.country) + " |"@
}

/// The report's title and table header.
pub open spec fn spec_report_header() -> Seq<char> {
    "# Latency Report\n\n| IP Address  | ID | Moniker | Port| Ping Latency(ms) | City | Country |\n|------------|----|---------| ---- | ------- |\n"@
}

/// The report's rows, one rendered line per report line, each ended by
/// a newline.
pub open spec fn spec_render_lines(lines: Seq<ReportLineView>) -> Seq<char>
    decreases lines.len(),
{
    if lines.len() == 0 {
        Seq::empty()
    } else {
        spec_render_lines(lines.drop_last()) + spec_render_line(lines.last()) + "\n"@
    }
}

/// The whole report as text: header, then one row per line in order.
pub open spec fn spec_render_report(lines: Seq<ReportLineView>) -> Seq<char> {
    spec_report_header() + spec_render_lines(lines)
}

impl ReportLine {
    /// This line as one row of the report table. A reachable line shows
    /// its latency; an unreachable one shows "Unreachable"; a missing
    /// port shows as 0 and missing location fields as empty columns.
    pub fn render(&self) -> (r: String)
        ensures
            r@ == spec_render_line(self@),
    {
        let mut s = String::from_str("| ");
        s.append(self.host.as_str());
        s.append(" | ");
        s.append(self.id.as_str());
        s.append(" | ");
        s.append(self.moniker.as_str());
        s.append(" | ");
        let port: u64 = match &self.port {
            Some(p) => *p,
            None => 0,
        };
        let ps = u64_to_string(port);
        s.append(ps.as_str());
        s.append(" | ");
        match &self.latency_in_milliseconds {
            Some(v) => {
                let ls = u64_to_string(*v);
                s.append(ls.as_str());
            },
            None => {
                s.append("Unreachable");
            },
        }
        s.append(" | ");
        if let Some(c) = &self.city {
            s.append(c.as_str());
        }
        s.append(" | ");
        if let Some(c) = &self.country {
            s.append(c.as_str());
        }
        s.append(" |");
        proof {
            assert(s@ =~= spec_render_line(self@));
        }
        s
    }
}

impl Report {
    /// The whole report as text: the fixed header, then one row per
    /// line, in the report's order.
    pub fn render(&self) -> (r: String)
        ensures
            r@ == spec_render_report(self@),
    {
        let ghost rv = self.report_lines.deep_view();
        let mut s = String::from_str(
            "# Latency Report\n\n| IP Address  | ID | Moniker | Port| Ping Latency(ms) | City | Country |\n|------------|----|---------| ---- | ------- |\n",
        );
        proof {
            assert(s@ =~= spec_report_header() + spec_render_lines(rv.subrange(0, 0)));
        }
        let mut i: usize = 0;
        while i < self.report_lines.len()
            invariant
                rv == self.report_lines.deep_view(),
                rv.len() == self.report_lines@.len(),
                i <= rv.len(),
                s@ == spec_report_header() + spec_render_lines(rv.subrange(0, i as int)),
            decreases rv.len() - i,
        {
            let t = self.report_lines[i].render();
            s.append(t.as_str());
            s.append("\n");
            proof {
                assert(rv.subrange(0, i + 1).drop_last() =~= rv.subrange(0, i as int));
                assert(rv.subrange(0, i + 1).last() == rv[i as int]);
                assert(s@ =~= spec_report_header() + spec_render_lines(rv.subrange(0, i + 1)));
            }
            i += 1;
        }
        proof {
            assert(rv.subrange(0, self.report_lines@.len() as int) =~= rv);
        }
        s
    }
}

/// Handle for the report-logging step; the log write itself is
/// performed outside the library.
pub struct AddrBookReporter {}

impl AddrBookReporter {
    pub fn new() -> (r: Self) {
        Self {  }
    }
}

impl Default for AddrBookReporter {
    fn default() -> (r: Self) {
        Self::new()
    }
}

} // verus!
