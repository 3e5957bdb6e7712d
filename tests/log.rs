use ecos_ssc1::log::{
    color_for_level, init_logger, init_with_config, is_initialized, max_level, set_max_level, EcosLogger,
    Level, LevelFilter, Metadata, Record,
};

const LEVELS: [Level; 5] = [Level::Error, Level::Warn, Level::Info, Level::Debug, Level::Trace];

#[test]
fn level_names() {
    let names: Vec<&str> = LEVELS.iter().map(|l| l.as_str()).collect();
    assert_eq!(names, vec!["ERROR", "WARN ", "INFO ", "DEBUG", "TRACE"]);
    let shorts: String = LEVELS.iter().map(|l| l.as_short()).collect();
    assert_eq!(shorts, "EWIDT");
}

#[test]
fn filters_accept_levels_up_to_their_own() {
    let filters = [
        LevelFilter::Off,
        LevelFilter::Error,
        LevelFilter::Warn,
        LevelFilter::Info,
        LevelFilter::Debug,
        LevelFilter::Trace,
    ];
    for (fi, f) in filters.iter().enumerate() {
        for (li, l) in LEVELS.iter().enumerate() {
            assert_eq!(f.accepts(*l), li < fi, "{:?} {:?}", f, l);
        }
    }
    assert_eq!(LevelFilter::Warn.name(), "Warn");
    assert_eq!(LevelFilter::Off.name(), "Off");
}

#[test]
fn default_filter_is_info() {
    assert_eq!(LevelFilter::default(), LevelFilter::Info);
}

#[test]
fn level_colours() {
    assert_eq!(color_for_level(Level::Error), "\x1b[91m");
    assert_eq!(color_for_level(Level::Warn), "\x1b[93m");
    assert_eq!(color_for_level(Level::Info), "\x1b[92m");
    assert_eq!(color_for_level(Level::Debug), "\x1b[96m");
    assert_eq!(color_for_level(Level::Trace), "\x1b[95m");
}

#[test]
fn record_carries_its_metadata() {
    let msg = String::from("boot done");
    let r = Record::new(Metadata::new(Level::Warn, "app::main"), &msg);
    assert_eq!(r.level(), Level::Warn);
    assert_eq!(r.target(), "app::main");
    assert_eq!(r.args(), "boot done");
    assert_eq!(r.metadata().level(), Level::Warn);
    assert_eq!(r.metadata().target(), "app::main");
}

#[test]
fn logger_passes_nothing_before_init() {
    let mut lg = EcosLogger::new();
    assert!(!lg.is_initialized());
    assert!(!lg.accepts(Level::Error));
    set_max_level(&mut lg, LevelFilter::Trace);
    assert_eq!(max_level(&lg), LevelFilter::Info);
    init_logger(&mut lg);
    assert!(is_initialized(&lg));
    assert!(lg.accepts(Level::Info));
    assert!(!lg.accepts(Level::Debug));
    assert!(!lg.use_colors && !lg.show_timestamp);
}

#[test]
fn logger_configuration_and_level_change() {
    let mut lg = EcosLogger::new();
    init_with_config(&mut lg, true, LevelFilter::Error, true);
    assert!(lg.use_colors && lg.show_timestamp);
    assert!(lg.accepts(Level::Error));
    assert!(!lg.accepts(Level::Warn));
    set_max_level(&mut lg, LevelFilter::Trace);
    assert_eq!(max_level(&lg), LevelFilter::Trace);
    assert!(lg.accepts(Level::Trace));
    lg.init(false, LevelFilter::Off, false);
    assert!(!lg.accepts(Level::Error));
}
