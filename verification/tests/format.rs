use cosmoping::error::CosmopingError;
use cosmoping::parser::AddrBookParser;
use cosmoping::reporter::{u64_to_string, AddrBookReporter, Report, ReportLine};
use cosmoping::writer::AddrBookWriter;

fn line(
    id: &str,
    host: &str,
    moniker: &str,
    port: Option<u64>,
    latency: Option<u64>,
    city: Option<&str>,
    country: Option<&str>,
) -> ReportLine {
    ReportLine {
        id: id.to_string(),
        host: host.to_string(),
        moniker: moniker.to_string(),
        port,
        latency_in_milliseconds: latency,
        city: city.map(|s| s.to_string()),
        country: country.map(|s| s.to_string()),
    }
}

#[test]
fn decimal_text() {
    assert_eq!(u64_to_string(0), "0");
    assert_eq!(u64_to_string(7), "7");
    assert_eq!(u64_to_string(26657), "26657");
    assert_eq!(u64_to_string(u64::MAX), "18446744073709551615");
}

#[test]
fn reachable_line_row() {
    let l = line("A", "1.1.1.1", "alpha", Some(26656), Some(50), Some("Berlin"), Some("DE"));
    assert_eq!(l.render(), "| 1.1.1.1 | A | alpha | 26656 | 50 | Berlin | DE |");
}

#[test]
fn unreachable_line_row() {
    let l = line("B", "2.2.2.2", "Unknown", None, None, None, None);
    assert_eq!(l.render(), "| 2.2.2.2 | B | Unknown | 0 | Unreachable |  |  |");
}

#[test]
fn report_table() {
    let report = Report {
        report_lines: vec![
            line("A", "1.1.1.1", "alpha", Some(26656), Some(50), None, None),
            line("B", "2.2.2.2", "Unknown", None, None, None, None),
        ],
    };
    let expected = "# Latency Report\n\n\
        | IP Address  | ID | Moniker | Port| Ping Latency(ms) | City | Country |\n\
        |------------|----|---------| ---- | ------- |\n\
        | 1.1.1.1 | A | alpha | 26656 | 50 |  |  |\n\
        | 2.2.2.2 | B | Unknown | 0 | Unreachable |  |  |\n";
    assert_eq!(report.render(), expected);
}

#[test]
fn empty_report_is_header_only() {
    let report = Report { report_lines: vec![] };
    let expected = "# Latency Report\n\n\
        | IP Address  | ID | Moniker | Port| Ping Latency(ms) | City | Country |\n\
        |------------|----|---------| ---- | ------- |\n";
    assert_eq!(report.render(), expected);
}

#[test]
fn error_messages() {
    let e = CosmopingError::UnableToParseAddrBookFile("bad json".to_string());
    assert_eq!(e.message(), "Unable to parse address book file: bad json");
    let e = CosmopingError::AddrBookWasNotFound("io".to_string());
    assert_eq!(e.message(), "Address book path was not found: io");
    let e = CosmopingError::AddrBookPathDoesNotExist("/tmp/x".to_string());
    assert_eq!(e.message(), "Address book path does not exist: /tmp/x");
}

#[test]
fn step_handles_construct() {
    let _ = AddrBookParser::new();
    let _ = AddrBookParser::default();
    let _ = AddrBookReporter::new();
    let _ = AddrBookReporter::default();
    let _ = AddrBookWriter::new();
    let _ = AddrBookWriter::default();
}
