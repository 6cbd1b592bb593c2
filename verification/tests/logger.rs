use cordis::effect::{DisposeAction, Disposer, EffectTree, Inverse};
use cordis::error::CordisError;
use cordis::id::{EffectId, FiberId, IdSource};
use cordis::logger::{ConsoleExporter, LogExporter, LogLevel, LogRecord, Logger};
use std::cell::RefCell;
use std::rc::Rc;

#[derive(Clone, Default)]
struct Capture(Rc<RefCell<Vec<LogRecord>>>);

impl LogExporter for Capture {
    fn export(&self, record: &LogRecord) {
        self.0.borrow_mut().push(record.clone());
    }
}

fn log(logger: &mut Logger<Capture>, level: LogLevel, target: &str, message: &str) {
    if let Some(record) = logger.log(level, target.to_owned(), message.to_owned(), None) {
        for (_, exporter) in &logger.exporters {
            exporter.export(&record);
        }
    }
}

#[test]
fn buffer_is_bounded_and_exporter_is_effect_owned() {
    let mut ids = IdSource::new();
    let mut logger = Logger::new(2);
    let capture = Capture::default();
    let mut effects = EffectTree::new(&mut ids, "logger".to_owned());
    let owner = effects.nodes[0].id;
    let id = logger
        .register_exporter(&mut ids, owner, effects.is_armed(owner), capture.clone())
        .unwrap();
    effects.defer(owner, Disposer::new(id)).unwrap();
    log(&mut logger, LogLevel::Info, "app", "one");
    log(&mut logger, LogLevel::Info, "app", "two");
    log(&mut logger, LogLevel::Warn, "app", "three");
    assert_eq!(logger.records().len(), 2);
    assert_eq!(capture.0.borrow().len(), 3);
    assert!(matches!(effects.dispose(owner), DisposeAction::Run));
    while let Some(Inverse::Step(step)) = effects.next_inverse(owner) {
        logger.remove_exporter(step.run());
    }
    assert_eq!(effects.finish(owner), Ok(()));
    log(&mut logger, LogLevel::Error, "app", "four");
    assert_eq!(capture.0.borrow().len(), 3);
    assert_eq!(
        logger
            .records()
            .iter()
            .map(|record| (record.sequence, record.message.clone()))
            .collect::<Vec<_>>(),
        vec![(3, "three".to_owned()), (4, "four".to_owned())]
    );
}

#[test]
fn exporters_need_an_armed_effect() {
    let mut ids = IdSource::new();
    let mut logger = Logger::new(2);
    assert_eq!(
        logger.register_exporter(&mut ids, EffectId(9), false, Capture::default()),
        Err(CordisError::InactiveEffect {
            effect: EffectId(9)
        })
    );
    assert!(logger.exporters.is_empty());
}

#[test]
fn longest_target_filter_wins() {
    let mut logger: Logger<Capture> = Logger::new(4);
    logger.set_level("app".to_owned(), LogLevel::Warn);
    logger.set_level("app.db".to_owned(), LogLevel::Debug);
    log(&mut logger, LogLevel::Info, "app.http", "hidden");
    log(&mut logger, LogLevel::Debug, "app.db.query", "visible");
    assert_eq!(logger.records().len(), 1);
}

#[test]
fn a_logger_without_capacity_keeps_nothing() {
    let mut logger: Logger<Capture> = Logger::new(0);
    log(&mut logger, LogLevel::Error, "app", "gone");
    assert!(logger.records().is_empty());
}

#[test]
fn console_lines_show_time_level_target_and_fiber() {
    let record = LogRecord {
        sequence: 1,
        level: LogLevel::Warn,
        target: "app.db".to_owned(),
        message: "slow".to_owned(),
        fiber: Some(FiberId(3)),
    };
    assert_eq!(
        ConsoleExporter.line("12:00:00.000", &record),
        "[12:00:00.000] [Warn] [app.db] [fiber=3] slow"
    );
    let anonymous = LogRecord {
        fiber: None,
        ..record
    };
    assert_eq!(
        ConsoleExporter.line("0", &anonymous),
        "[0] [Warn] [app.db] [fiber=-] slow"
    );
}

#[test]
fn guests_name_levels_and_default_to_info() {
    assert_eq!(LogLevel::parse("error"), LogLevel::Error);
    assert_eq!(LogLevel::parse("warn"), LogLevel::Warn);
    assert_eq!(LogLevel::parse("debug"), LogLevel::Debug);
    assert_eq!(LogLevel::parse("trace"), LogLevel::Trace);
    assert_eq!(LogLevel::parse("loud"), LogLevel::Info);
    assert_eq!(LogLevel::Trace.text(), "Trace");
}
