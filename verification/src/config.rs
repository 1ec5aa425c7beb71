//! The settings of one run.

use vstd::prelude::*;
use vstd::string::*;
use crate::error::{SnapshotError, SnapshotErrorView};

verus! {

/// Settings of a run. They are checked once, when the value is made by
/// [`SnapshotConfig::new`].
#[derive(Clone, Debug)]
pub struct SnapshotConfig {
    /// Directory whose files are packed.
    pub workspace_root: String,
    /// Directory that receives the parts and the summary.
    pub dest_dir: String,
    /// Start of the name of every file that is written.
    pub prefix: String,
    /// Line budget of a part.
    pub max_lines: usize,
    /// Whether to decide everything and write nothing.
    pub dry_run: bool,
}

/// Mathematical value of a [`SnapshotConfig`].
pub struct SnapshotConfigView {
    pub workspace_root: Seq<char>,
    pub dest_dir: Seq<char>,
    pub prefix: Seq<char>,
    pub max_lines: nat,
    pub dry_run: bool,
}

impl View for SnapshotConfig {
    type V = SnapshotConfigView;

    open spec fn view(&self) -> SnapshotConfigView {
        SnapshotConfigView {
            workspace_root: self.workspace_root@,
            dest_dir: self.dest_dir@,
            prefix: self.prefix@,
            max_lines: self.max_lines as nat,
            dry_run: self.dry_run,
        }
    }
}

impl SnapshotConfigView {
    /// A part must be allowed at least one line.
    pub open spec fn wf(self) -> bool {
        self.max_lines > 0
    }
}

impl SnapshotConfig {
    /// Settings for packing `workspace_root` into parts of at most
    /// `max_lines` lines, written to the current directory, not a dry run.
    /// A budget of zero lines is refused.
    pub fn new(workspace_root: &str, prefix: &str, max_lines: usize) -> (res: Result<
        SnapshotConfig,
        SnapshotError,
    >)
        ensures
            max_lines == 0 ==> (res matches Err(e) && e@ == SnapshotErrorView::InvalidArgument(
                "max_lines must be > 0"@,
            )),
            max_lines > 0 ==> (res matches Ok(cfg) && cfg@.wf() && cfg@ == (SnapshotConfigView {
                workspace_root: workspace_root@,
                dest_dir: "."@,
                prefix: prefix@,
                max_lines: max_lines as nat,
                dry_run: false,
            })),
    {
        if max_lines == 0 {
            return Err(SnapshotError::InvalidArgument(String::from_str("max_lines must be > 0")));
        }
        Ok(
            SnapshotConfig {
                workspace_root: String::from_str(workspace_root),
                dest_dir: String::from_str("."),
                prefix: String::from_str(prefix),
                max_lines,
                dry_run: false,
            },
        )
    }

    /// The same settings, writing to `dest`.
    pub fn with_dest(self, dest: &str) -> (cfg: SnapshotConfig)
        ensures
            cfg@ == (SnapshotConfigView { dest_dir: dest@, ..self@ }),
            cfg@.wf() == self@.wf(),
    {
        let mut cfg = self;
        cfg.dest_dir = String::from_str(dest);
        cfg
    }

    /// The same settings, as a dry run or not.
    pub fn with_dry_run(self, dry: bool) -> (cfg: SnapshotConfig)
        ensures
            cfg@ == (SnapshotConfigView { dry_run: dry, ..self@ }),
            cfg@.wf() == self@.wf(),
    {
        let mut cfg = self;
        cfg.dry_run = dry;
        cfg
    }
}

} // verus!
