//! Resolved configuration values: the default file extension, the global
//! storage root, and the status glyphs with their built-in fallbacks. The
//! sources of these values (a configuration file, the platform
//! directories) are read by the surrounding tool; this module only
//! resolves what was found.

use vstd::prelude::*;
use vstd::string::StringExecFns;

use crate::node::Status;

verus! {

/// Optional glyph overrides, one per status.
#[derive(Clone, Copy, Debug)]
pub struct CGTD {
    pub none: Option<char>,
    pub undone: Option<char>,
    pub done: Option<char>,
    pub need_work: Option<char>,
    pub urgent: Option<char>,
    pub recurring: Option<char>,
    pub pending: Option<char>,
    pub hold: Option<char>,
    pub cancelled: Option<char>,
}

/// The glyph overrides that override nothing.
pub open spec fn no_symbols() -> CGTD {
    CGTD {
        none: None,
        undone: None,
        done: None,
        need_work: None,
        urgent: None,
        recurring: None,
        pending: None,
        hold: None,
        cancelled: None,
    }
}

/// Resolved configuration: the global storage root, the glyph overrides
/// and the default file extension, each optional.
pub struct Config {
    pub global: Option<String>,
    pub symbol: Option<CGTD>,
    pub extension: Option<String>,
}

impl Config {
    /// The configured file extension, `md` when none is set.
    pub fn get_extension(&self) -> (r: String)
        ensures
            (match self.extension {
                Some(s) => r@ == s@,
                None => r@ == "md"@,
            }),
    {
        match &self.extension {
            Some(s) => s.clone(),
            None => "md".to_owned(),
        }
    }

    /// The configured glyph overrides, or no overrides.
    pub fn get_symbols(&self) -> (r: CGTD)
        ensures
            (match self.symbol {
                Some(c) => r == c,
                None => r == no_symbols(),
            }),
    {
        match &self.symbol {
            Some(c) => *c,
            None => CGTD {
                none: None,
                undone: None,
                done: None,
                need_work: None,
                urgent: None,
                recurring: None,
                pending: None,
                hold: None,
                cancelled: None,
            },
        }
    }

    /// The configured global storage root; with none set, `dodder` under
    /// the platform data directory, which the caller resolves and passes
    /// in.
    pub fn get_global_path(&self, data_dir: &str) -> (r: String)
        ensures
            (match self.global {
                Some(p) => r@ == p@,
                None => r@ == data_dir@ + "/dodder"@,
            }),
    {
        match &self.global {
            Some(p) => p.clone(),
            None => data_dir.to_owned().concat("/dodder"),
        }
    }
}

/// The display glyph of a status under the given overrides.
pub open spec fn spec_symbol(s: Status, symbol_list: CGTD) -> char {
    match s {
        Status::Unset => match symbol_list.none {
            Some(c) => c,
            None => '\u{f0131}',
        },
        Status::Undone => match symbol_list.undone {
            Some(c) => c,
            None => '\u{f012e}',
        },
        Status::Done => match symbol_list.done {
            Some(c) => c,
            None => '\u{f0132}',
        },
        Status::NeedWork => match symbol_list.need_work {
            Some(c) => c,
            None => '\u{f0c52}',
        },
        Status::Urgent => match symbol_list.urgent {
            Some(c) => c,
            None => '\u{26a0}',
        },
        Status::Recurring => match symbol_list.recurring {
            Some(c) => c,
            None => '\u{f0456}',
        },
        Status::Pending => match symbol_list.pending {
            Some(c) => c,
            None => '\u{f03e4}',
        },
        Status::Hold => match symbol_list.hold {
            Some(c) => c,
            None => '\u{f040a}',
        },
        Status::Cancelled => match symbol_list.cancelled {
            Some(c) => c,
            None => '\u{f073a}',
        },
    }
}

impl Status {
    /// The display glyph for this status: the configured override when
    /// one is set, else the built-in default.
    pub fn to_symbol(&self, symbol_list: CGTD) -> (r: char)
        ensures
            r == spec_symbol(*self, symbol_list),
    {
        match self {
            Status::Unset => match symbol_list.none {
                Some(c) => c,
                None => '\u{f0131}',
            },
            Status::Undone => match symbol_list.undone {
                Some(c) => c,
                None => '\u{f012e}',
            },
            Status::Done => match symbol_list.done {
                Some(c) => c,
                None => '\u{f0132}',
            },
            Status::NeedWork => match symbol_list.need_work {
                Some(c) => c,
                None => '\u{f0c52}',
            },
            Status::Urgent => match symbol_list.urgent {
                Some(c) => c,
                None => '\u{26a0}',
            },
            Status::Recurring => match symbol_list.recurring {
                Some(c) => c,
                None => '\u{f0456}',
            },
            Status::Pending => match symbol_list.pending {
                Some(c) => c,
                None => '\u{f03e4}',
            },
            Status::Hold => match symbol_list.hold {
                Some(c) => c,
                None => '\u{f040a}',
            },
            Status::Cancelled => match symbol_list.cancelled {
                Some(c) => c,
                None => '\u{f073a}',
            },
        }
    }
}

} // verus!
