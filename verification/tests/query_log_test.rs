use rdns::config::{QueryLogConfig, QueryLogType};
use rdns::net::{IpAddr, Ipv4Addr, Ipv6Addr};
use rdns::query_log::calendar::epoch_to_date;
use rdns::query_log::{updated_csv, ClientDailyStats, FlushPlan, QueryLogger};

#[test]
fn test_epoch_to_date() {
    assert_eq!(epoch_to_date(0), "1970-01-01");
    assert_eq!(epoch_to_date(86400), "1970-01-02");
    assert_eq!(epoch_to_date(1704067200), "2024-01-01"); // Jan 1, 2024
}

#[test]
fn dates_across_months_and_leap_years() {
    assert_eq!(epoch_to_date(951782399), "2000-02-28");
    assert_eq!(epoch_to_date(951782400), "2000-02-29");
    assert_eq!(epoch_to_date(951868800), "2000-03-01");
    assert_eq!(epoch_to_date(1709164800), "2024-02-29");
    assert_eq!(epoch_to_date(1735689599), "2024-12-31");
    assert_eq!(epoch_to_date(4107542400), "2100-03-01");
}

fn logger() -> QueryLogger {
    let mut config = QueryLogConfig::default();
    config.log_type = QueryLogType::CsvClient;
    QueryLogger::new(config)
}

const DAY: u64 = 86400;

#[test]
fn test_query_logger_aggregation_and_csv() {
    let mut logger = logger();
    let client_a = IpAddr::V4(Ipv4Addr::new(192, 168, 1, 50));
    let client_b = IpAddr::V4(Ipv4Addr::new(192, 168, 1, 100));

    logger.record(&client_a, false, DAY);
    logger.record(&client_a, true, DAY);
    logger.record(&client_a, false, DAY);
    logger.record(&client_b, true, DAY);

    let summary = logger.get_summary();
    assert_eq!(summary.len(), 2);

    let stat_a = summary.iter().find(|s| s.client == "192.168.1.50").unwrap();
    assert_eq!(stat_a.total_queries, 3);
    assert_eq!(stat_a.blocked_queries, 1);

    let stat_b = summary.iter().find(|s| s.client == "192.168.1.100").unwrap();
    assert_eq!(stat_b.total_queries, 1);
    assert_eq!(stat_b.blocked_queries, 1);

    // What a flush writes
    match logger.flush_plan() {
        FlushPlan::Files { all, clients } => {
            assert_eq!(all.name, "clients_daily.csv");
            let content = updated_csv(&Vec::new(), &all.stats);
            assert!(content.contains("date,client,total_queries,blocked_queries"));
            assert!(content.contains("192.168.1.50,3,1"));
            assert!(content.contains("192.168.1.100,1,1"));

            // The file of each client
            assert!(clients.iter().any(|f| f.name == "192.168.1.50.csv"));
        }
        _ => panic!("expected files"),
    }
}

fn row(date: &str, client: &str, total: u64, blocked: u64) -> ClientDailyStats {
    ClientDailyStats {
        date: date.to_string(),
        client: client.to_string(),
        total_queries: total,
        blocked_queries: blocked,
    }
}

#[test]
fn files_are_merged_and_sorted() {
    let lines: Vec<String> = vec![
        "date,client,total_queries,blocked_queries".to_string(),
        "# a comment".to_string(),
        "".to_string(),
        " 2024-01-01 , 10.0.0.1 , 5 , 2 ".to_string(),
        "2024-01-02,10.0.0.9,x,1".to_string(),
        "too,short,1".to_string(),
    ];
    let stats = vec![row("2024-01-01", "10.0.0.1", 3, 4), row("2024-01-02", "10.0.0.2", 1, 0)];
    assert_eq!(
        updated_csv(&lines, &stats),
        "date,client,total_queries,blocked_queries\n\
         2024-01-02,10.0.0.2,1,0\n\
         2024-01-02,10.0.0.9,0,1\n\
         2024-01-01,10.0.0.1,5,4\n"
    );
}

#[test]
fn a_file_is_read_back() {
    let stats = vec![row("2024-01-01", "10.0.0.1", 3, 4), row("2024-01-02", "fd00::1", 1, 0)];
    let first = updated_csv(&Vec::new(), &stats);
    let lines: Vec<String> = first.lines().map(|l| l.to_string()).collect();
    assert_eq!(updated_csv(&lines, &Vec::new()), first);
    assert_eq!(updated_csv(&lines, &stats), first);
}

#[test]
fn nothing_is_counted_or_written_without_csv() {
    let mut off = QueryLogger::new(QueryLogConfig::default());
    off.record(&IpAddr::V4(Ipv4Addr::new(1, 2, 3, 4)), false, DAY);
    assert!(!off.is_csv_enabled());
    assert_eq!(off.get_summary().len(), 0);
    assert!(matches!(off.flush_plan(), FlushPlan::Nothing));
    assert!(matches!(logger().flush_plan(), FlushPlan::DirectoryOnly));
}

#[test]
fn days_and_clients_are_kept_apart() {
    let mut logger = logger();
    let six = IpAddr::V6(Ipv6Addr::unspecified());
    logger.record(&six, false, 0);
    logger.record(&six, true, DAY);
    logger.record(&six, true, DAY + 1);
    let summary = logger.get_summary();
    assert_eq!(summary.len(), 2);
    assert_eq!((summary[0].date.as_str(), summary[0].client.as_str()), ("1970-01-02", "::"));
    assert_eq!((summary[0].total_queries, summary[0].blocked_queries), (2, 2));
    assert_eq!((summary[1].date.as_str(), summary[1].total_queries), ("1970-01-01", 1));
    match logger.flush_plan() {
        FlushPlan::Files { clients, .. } => {
            assert_eq!(clients.len(), 1);
            assert_eq!(clients[0].name, "__.csv");
            assert_eq!(clients[0].stats.len(), 2);
        }
        _ => panic!("expected files"),
    }
}

#[test]
fn a_second_write_changes_nothing() {
    let old = "date,client,total_queries,blocked_queries\r\n 2024-01-01 ,10.0.0.1,9,x\n# note\n,nobody,1,1\n";
    let stats = vec![row("2024-01-01", "10.0.0.1", 3, 4), row("2024-01-02", "fd00::1", 1, 0)];
    let lines = |text: &str| -> Vec<String> { text.lines().map(|l| l.to_string()).collect() };
    let first = updated_csv(&lines(old), &stats);
    assert_eq!(
        first,
        "date,client,total_queries,blocked_queries\n\
         2024-01-02,fd00::1,1,0\n\
         2024-01-01,10.0.0.1,9,4\n\
         ,nobody,1,1\n"
    );
    assert_eq!(updated_csv(&lines(&first), &stats), first);
}

#[test]
fn a_second_write_of_rows_that_read_as_notes_changes_nothing() {
    let old = "date ,10.0.0.1,1,1\n2024-01-01,10.0.0.1,9,0\n";
    let stats = vec![row("#note", "10.0.0.1", 3, 4), row("date", "10.0.0.1", 1, 2), row("2024-01-01", "a", 1, 0)];
    let lines = |text: &str| -> Vec<String> { text.lines().map(|l| l.to_string()).collect() };
    let first = updated_csv(&lines(old), &stats);
    assert_eq!(
        first,
        "date,client,total_queries,blocked_queries\n\
         date,10.0.0.1,1,2\n\
         2024-01-01,10.0.0.1,9,0\n\
         2024-01-01,a,1,0\n\
         #note,10.0.0.1,3,4\n"
    );
    assert_eq!(updated_csv(&lines(&first), &stats), first);
    assert!(!updated_csv(&lines(&first), &Vec::new()).contains("#note"));
}

#[test]
fn later_days_have_later_texts() {
    let days = [0, 30, 31, 364, 365, 10956, 11016, 2932896];
    for pair in days.windows(2) {
        assert!(epoch_to_date(pair[0] * 86400) < epoch_to_date(pair[1] * 86400));
    }
    assert_eq!(epoch_to_date(2932897 * 86400 - 1), "9999-12-31");
    assert!(epoch_to_date(2932897 * 86400) < epoch_to_date(0));
}
