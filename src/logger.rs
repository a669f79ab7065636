//! A minimal logger that prints each enabled record with a local time stamp.

use std::io::Write;
use vstd::prelude::*;

verus! {

#[verifier::external_type_specification]
#[verifier::external_body]
pub struct ExLevelFilter(log::LevelFilter);

#[verifier::external_type_specification]
#[verifier::external_body]
pub struct ExSetLoggerError(log::SetLoggerError);

#[verifier::external_type_specification]
#[verifier::external_body]
pub struct ExMetadata<'a>(log::Metadata<'a>);

#[verifier::external_type_specification]
#[verifier::external_body]
pub struct ExRecord<'a>(log::Record<'a>);

/// Relies on `log::set_max_level`, which stores the global filter.
#[verifier::external_body]
fn set_filter(level: log::LevelFilter) {
    log::set_max_level(level)
}

/// The logger that `init` installs.
pub struct Logger;

/// A message of severity `level` is shown under the filter `max`; both are
/// log's ranks (error 1 up to trace 5; a filter of 0 shows nothing).
pub open spec fn shown(level: nat, max: nat) -> bool {
    1 <= level && level <= max
}

/// Relies on `log::Metadata::level` and on `Level` being `repr(usize)` with
/// error = 1 up to trace = 5.
#[verifier::external_body]
fn metadata_rank(m: &log::Metadata) -> (r: usize)
    ensures
        1 <= r <= 5,
{
    m.level() as usize
}

/// Relies on `log::Record::level`, a rank as in `metadata_rank`.
#[verifier::external_body]
fn record_rank(rec: &log::Record) -> (r: usize)
    ensures
        1 <= r <= 5,
{
    rec.level() as usize
}

/// Relies on `log::max_level`: the global filter, `LevelFilter` being
/// `repr(usize)` with off = 0 up to trace = 5.
#[verifier::external_body]
fn max_rank() -> (r: usize)
    ensures
        r <= 5,
{
    log::max_level() as usize
}

/// Relies on chrono's `Local::now` and `format`: the local time as text.
#[verifier::external_body]
fn local_stamp() -> String {
    chrono::Local::now().format("%Y/%m/%d %H:%M:%S").to_string()
}

/// Relies on `writeln!` to standard output; a failed write is ignored.
#[verifier::external_body]
fn print_record(stamp: &String, rec: &log::Record) {
    let _ = writeln!(std::io::stdout(), "{} {}", stamp, rec.args());
}

/// Relies on `log::set_logger`, which installs `Logger` once per process.
#[verifier::external_body]
fn install_logger() -> Result<(), log::SetLoggerError> {
    log::set_logger(&Logger)
}

/// Whether a message of severity rank `level` passes the filter rank `max`.
pub fn level_shown(level: usize, max: usize) -> (r: bool)
    ensures
        r == shown(level as nat, max as nat),
{
    1 <= level && level <= max
}

impl log::Log for Logger {
    fn enabled(&self, metadata: &log::Metadata) -> bool {
        level_shown(metadata_rank(metadata), max_rank())
    }

    fn log(&self, record: &log::Record) {
        if level_shown(record_rank(record), max_rank()) {
            let stamp = local_stamp();
            print_record(&stamp, record);
        }
    }

    fn flush(&self) {
    }
}

/// Installs `Logger` as the process's logger and sets the global filter to
/// `level`. The filter is set only when the installation succeeded.
pub fn init(level: log::LevelFilter) -> (r: Result<(), log::SetLoggerError>) {
    match install_logger() {
        Ok(()) => {
            set_filter(level);
            Ok(())
        },
        Err(e) => Err(e),
    }
}

} // verus!
