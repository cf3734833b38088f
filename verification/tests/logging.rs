use parcel_lib::logging::LogLevel;
use parcel_lib::logging::TauriLogger;
use parcel_lib::order::str_eq;
use parcel_lib::order::str_lt;

#[test]
fn starts_empty() {
    let logger = TauriLogger::init();
    assert_eq!(logger.get_logs().len(), 0);
}

#[test]
fn add_log_buffers_entry() {
    let mut logger = TauriLogger::init();
    logger.add_log(LogLevel::Info, "starting".to_string());
    logger.add_log(LogLevel::Error, "failed".to_string());
    let logs = logger.get_logs();
    assert_eq!(logs.len(), 2);
    assert_eq!(logs[0].level, "INFO");
    assert_eq!(logs[0].message, "starting");
    assert_eq!(logs[1].level, "ERROR");
    assert_eq!(logs[1].message, "failed");
}

#[test]
fn clear_logs_empties_buffer() {
    let mut logger = TauriLogger::init();
    logger.add_log(LogLevel::Warn, "careful".to_string());
    logger.clear_logs();
    assert_eq!(logger.get_logs().len(), 0);
}

#[test]
fn chatter_levels_filtered() {
    let mut logger = TauriLogger::init();
    assert!(logger.enabled(LogLevel::Error));
    assert!(logger.enabled(LogLevel::Warn));
    assert!(logger.enabled(LogLevel::Info));
    assert!(!logger.enabled(LogLevel::Debug));
    assert!(!logger.enabled(LogLevel::Trace));
    logger.log(LogLevel::Debug, "noise".to_string());
    logger.log(LogLevel::Trace, "more noise".to_string());
    assert_eq!(logger.get_logs().len(), 0);
    logger.log(LogLevel::Info, "kept".to_string());
    assert_eq!(logger.get_logs().len(), 1);
}

#[test]
fn level_names() {
    assert_eq!(LogLevel::Error.name(), "ERROR");
    assert_eq!(LogLevel::Warn.name(), "WARN");
    assert_eq!(LogLevel::Info.name(), "INFO");
    assert_eq!(LogLevel::Debug.name(), "DEBUG");
    assert_eq!(LogLevel::Trace.name(), "TRACE");
}

#[test]
fn string_order_is_lexicographic() {
    assert!(str_lt(&"A".to_string(), &"B".to_string()));
    assert!(!str_lt(&"B".to_string(), &"A".to_string()));
    assert!(str_lt(&"Ab".to_string(), &"B".to_string()));
    assert!(str_lt(&"A".to_string(), &"Ab".to_string()));
    assert!(!str_lt(&"A".to_string(), &"A".to_string()));
    assert!(str_eq(&"same".to_string(), &"same".to_string()));
    assert!(!str_eq(&"same".to_string(), &"Same".to_string()));
}
