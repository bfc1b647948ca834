//! One run from configuration to output lines: the checks made before any
//! traversal, the settings handed to the walker, and the rendering of what
//! the walker found.

use crate::entry::{sort_by_path, survivors, Entry};
use crate::filter::{all_valid, compiled_from, reports, FilterError, PathFilter};
use crate::index::{assemble, children_among, ParentIndex};
use crate::printer::{painted, print_tree_recursive, root_label, tree_lines, TreePrinter};
use vstd::prelude::*;
use vstd::string::StringExecFns;

verus! {

/// What the command line asks for.
pub struct Config {
    /// The directory to traverse, as it was given.
    pub path: String,
    /// How many directory levels below the root are visited.
    pub depth: usize,
    /// Show hidden entries.
    pub all: bool,
    /// Never use colors.
    pub no_color: bool,
    /// Show directories only.
    pub directories_only: bool,
    /// Show files only.
    pub files_only: bool,
    pub include_patterns: Vec<String>,
    pub exclude_patterns: Vec<String>,
    pub file_patterns: Vec<String>,
    /// Disregard ignore files.
    pub no_git_ignore: bool,
    /// Write full paths, not a tree.
    pub full_path: bool,
}

/// What the walker is told.
#[derive(Clone, Copy, Debug, PartialEq, Eq)]
pub struct WalkSettings {
    pub max_depth: usize,
    pub skip_hidden: bool,
    pub git_ignore: bool,
    pub git_exclude: bool,
    pub git_global: bool,
}

/// Why a run ends before anything is traversed.
#[derive(Debug)]
pub enum RunError {
    /// Directories-only and files-only were both asked for.
    ConflictingKinds,
    /// A pattern is no valid glob.
    InvalidPattern(FilterError),
    /// The root path does not exist.
    MissingRoot,
}

/// What a run works with once its configuration has passed the checks.
pub struct Plan {
    pub filter: PathFilter,
    pub printer: TreePrinter,
}

impl Config {
    /// All patterns of the three lists are valid globs.
    pub open spec fn patterns_valid(&self) -> bool {
        &&& all_valid(self.include_patterns@)
        &&& all_valid(self.exclude_patterns@)
        &&& all_valid(self.file_patterns@)
    }

    /// Both kinds of entry are asked for exclusively.
    pub open spec fn conflicting(&self) -> bool {
        self.directories_only && self.files_only
    }

    /// The walker's settings: the depth limit, hidden entries skipped unless
    /// all are asked for, and the three kinds of ignore file honored unless
    /// they are switched off together.
    pub fn walk_settings(&self) -> (r: WalkSettings)
        ensures
            r == (WalkSettings {
                max_depth: self.depth,
                skip_hidden: !self.all,
                git_ignore: !self.no_git_ignore,
                git_exclude: !self.no_git_ignore,
                git_global: !self.no_git_ignore,
            }),
    {
        WalkSettings {
            max_depth: self.depth,
            skip_hidden: !self.all,
            git_ignore: !self.no_git_ignore,
            git_exclude: !self.no_git_ignore,
            git_global: !self.no_git_ignore,
        }
    }

    /// Checks the configuration in a fixed order: first the conflict of the
    /// two kind flags, then the patterns, then the root's existence. Colors
    /// are used only when they are not switched off and the output is a
    /// terminal.
    pub fn plan(&self, root_exists: bool, stdout_is_terminal: bool) -> (r: Result<Plan, RunError>)
        ensures
            match r {
                Ok(plan) => {
                    &&& !self.conflicting()
                    &&& self.patterns_valid()
                    &&& root_exists
                    &&& plan.printer.use_color == (!self.no_color && stdout_is_terminal)
                    &&& plan.printer.full_path == self.full_path
                    &&& compiled_from(plan.filter.include_patterns@, self.include_patterns@)
                    &&& compiled_from(plan.filter.exclude_patterns@, self.exclude_patterns@)
                    &&& compiled_from(plan.filter.file_patterns@, self.file_patterns@)
                },
                Err(RunError::ConflictingKinds) => self.conflicting(),
                Err(RunError::InvalidPattern(e)) => {
                    &&& !self.conflicting()
                    &&& !self.patterns_valid()
                    &&& if !all_valid(self.include_patterns@) {
                        reports(e, self.include_patterns@)
                    } else if !all_valid(self.exclude_patterns@) {
                        reports(e, self.exclude_patterns@)
                    } else {
                        reports(e, self.file_patterns@)
                    }
                },
                Err(RunError::MissingRoot) => {
                    &&& !self.conflicting()
                    &&& self.patterns_valid()
                    &&& !root_exists
                },
            },
    {
        if self.directories_only && self.files_only {
            return Err(RunError::ConflictingKinds);
        }
        let filter = match PathFilter::new(
            &self.include_patterns,
            &self.exclude_patterns,
            &self.file_patterns,
        ) {
            Ok(filter) => filter,
            Err(e) => {
                return Err(RunError::InvalidPattern(e));
            },
        };
        if !root_exists {
            return Err(RunError::MissingRoot);
        }
        let printer = TreePrinter::new(!self.no_color && stdout_is_terminal, self.full_path);
        Ok(Plan { filter, printer })
    }
}

impl RunError {
    /// The text of the message for each error; `path` is the root as given.
    pub open spec fn message_text(&self, path: Seq<char>) -> Seq<char> {
        match self {
            RunError::ConflictingKinds => "Error: Cannot use both --directories-only and --files-only"@,
            RunError::InvalidPattern(e) => "Error: "@ + e.message@,
            RunError::MissingRoot => "Error: Path '"@ + path + "' does not exist"@,
        }
    }

    /// The message written to the error stream.
    pub fn message(&self, path: &str) -> (r: String)
        ensures
            r@ == self.message_text(path@),
    {
        match self {
            RunError::ConflictingKinds => {
                "Error: Cannot use both --directories-only and --files-only".to_owned()
            },
            RunError::InvalidPattern(e) => {
                let mut text = "Error: ".to_owned();
                text.append(e.message.as_str());
                text
            },
            RunError::MissingRoot => {
                let mut text = "Error: Path '".to_owned();
                text.append(path);
                text.append("' does not exist");
                text
            },
        }
    }
}

/// The index lists, under each directory, the surviving entries that sit
/// directly in it, in ascending order of their paths.
pub open spec fn indexes(
    index: ParentIndex,
    entries: Seq<Entry>,
    root: Seq<char>,
    config: Config,
    plan: Plan,
) -> bool {
    forall|dir: Seq<char>| #[trigger]
        index.children_of(dir) == children_among(
            sort_by_path(
                survivors(entries, root, plan.filter, config.directories_only, config.files_only),
            ),
            dir,
        )
}

/// The lines are the output of the run: in tree mode the root's name first,
/// then the lines of everything below the root under no indentation. Which
/// index stands for the entries does not matter: the lines below a directory
/// depend only on the children listed.
pub open spec fn is_output(
    config: Config,
    plan: Plan,
    root: Seq<char>,
    entries: Seq<Entry>,
    out: Seq<String>,
) -> bool {
    let banner: int = if plan.printer.full_path {
        0
    } else {
        1
    };
    &&& out.len() >= banner
    &&& !plan.printer.full_path ==> if plan.printer.use_color {
        painted(root_label(config.path@), out[0]@)
    } else {
        out[0]@ == root_label(config.path@)
    }
    &&& exists|index: ParentIndex|
        {
            &&& index.wf()
            &&& indexes(index, entries, root, config, plan)
            &&& plan.printer.renders(
                #[trigger] tree_lines(index, plan.printer, root, Seq::empty()),
                out.skip(banner),
            )
        }
}

/// Renders what the walker found. `root` is the root as the walker names it
/// in the parents of its entries; the root's own entry is left out.
pub fn render(config: &Config, plan: &Plan, root: &String, entries: &Vec<Entry>) -> (out: Vec<
    String,
>)
    ensures
        is_output(*config, *plan, root@, entries@, out@),
{
    let mut out: Vec<String> = Vec::new();
    match plan.printer.root_line(config.path.as_str()) {
        Some(line) => {
            out.push(line);
        },
        None => {},
    }
    let ghost banner = out@.len() as int;
    let index = assemble(
        entries,
        root,
        &plan.filter,
        config.directories_only,
        config.files_only,
    );
    print_tree_recursive(root, &index, &plan.printer, "", &mut out);
    proof {
        assert(""@ =~= Seq::<char>::empty()) by {
            reveal_strlit("");
        }
        if banner == 1 {
            assert(out@.take(1)[0] == out@[0]);
        }
    }
    out
}

} // verus!
