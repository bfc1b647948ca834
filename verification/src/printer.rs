//! The renderer: one line per surviving entry, drawn as a tree or written as
//! a full path, in depth-first order over the parent index.

use crate::entry::{lemma_sort_by_path, lemma_sort_keeps_entries, sort_by_path, sort_entries};
use crate::filter::name_text;
use crate::index::ParentIndex;
use crate::path::{file_name_of, path_file_name, path_le};
use colored::Colorize;
use vstd::prelude::*;
use vstd::string::StringExecFns;

verus! {

/// The escape sequence that opens bold blue text.
pub open spec fn bold_blue_start() -> Seq<char> {
    "\x1b[1;34m"@
}

/// The escape sequence that ends all styling.
pub open spec fn style_reset() -> Seq<char> {
    "\x1b[0m"@
}

/// What a directory's label may look like once it is styled: the text as it
/// is, where colors are switched off for the process, or else the text (at
/// full length or longer) between the bold-blue opening and the reset.
pub open spec fn painted(text: Seq<char>, out: Seq<char>) -> bool {
    ||| out == text
    ||| {
        &&& out.len() >= bold_blue_start().len() + text.len() + style_reset().len()
        &&& out.subrange(0, bold_blue_start().len() as int) == bold_blue_start()
        &&& out.subrange(out.len() - style_reset().len(), out.len() as int) == style_reset()
    }
}

/// Styles a label as a directory with the crate `colored`: `Colorize::blue`,
/// then `Colorize::bold`, then the `Display` of the `ColoredString`. Whether
/// the escape sequences are written depends on the process's color settings,
/// so the contract admits both outcomes.
#[verifier::external_body]
fn paint_directory(text: &str) -> (r: String)
    ensures
        painted(text@, r@),
{
    text.blue().bold().to_string()
}

/// The connector drawn before an entry's name.
pub open spec fn connector(is_last: bool) -> Seq<char> {
    if is_last {
        "└── "@
    } else {
        "├── "@
    }
}

/// What an entry adds to the indentation of its descendants.
pub open spec fn extension(is_last: bool) -> Seq<char> {
    if is_last {
        "    "@
    } else {
        "│   "@
    }
}

/// The name under which the root is announced: its base name, or the root
/// as given where it has none.
pub open spec fn root_label(root: Seq<char>) -> Seq<char> {
    match path_file_name(root) {
        Some(name) => name,
        None => root,
    }
}

/// One line of output, before it is drawn: the entry it shows, the
/// indentation it stands under, and whether it is the last of its siblings.
pub ghost struct LineSpec {
    pub path: Seq<char>,
    pub prefix: Seq<char>,
    pub is_last: bool,
    pub is_dir: bool,
}

/// The output settings: colors on or off, tree or full paths.
#[derive(Clone, Copy, Debug)]
pub struct TreePrinter {
    pub use_color: bool,
    pub full_path: bool,
}

impl TreePrinter {
    /// What stands before the label: nothing in full-path mode, else the
    /// indentation and the connector.
    pub open spec fn lead(&self, prefix: Seq<char>, is_last: bool) -> Seq<char> {
        if self.full_path {
            Seq::empty()
        } else {
            prefix + connector(is_last)
        }
    }

    /// The label of an entry: its whole path in full-path mode, else its name.
    pub open spec fn label(&self, path: Seq<char>) -> Seq<char> {
        if self.full_path {
            path
        } else {
            name_text(path)
        }
    }

    /// The indentation under which the children of an entry stand.
    pub open spec fn child_prefix(&self, prefix: Seq<char>, is_last: bool) -> Seq<char> {
        if self.full_path {
            Seq::empty()
        } else {
            prefix + extension(is_last)
        }
    }

    /// The text `out` is the line of the given entry: lead and label, the
    /// label styled only for a directory and only where colors are on.
    pub open spec fn shows(
        &self,
        out: Seq<char>,
        path: Seq<char>,
        prefix: Seq<char>,
        is_last: bool,
        is_dir: bool,
    ) -> bool {
        let lead = self.lead(prefix, is_last);
        if self.use_color && is_dir {
            &&& out.len() >= lead.len()
            &&& out.subrange(0, lead.len() as int) == lead
            &&& painted(self.label(path), out.subrange(lead.len() as int, out.len() as int))
        } else {
            out == lead + self.label(path)
        }
    }

    /// The texts are the lines described, one for one.
    pub open spec fn renders(&self, lines: Seq<LineSpec>, out: Seq<String>) -> bool {
        &&& out.len() == lines.len()
        &&& forall|k: int|
            0 <= k < lines.len() ==> self.shows(
                (#[trigger] out[k])@,
                lines[k].path,
                lines[k].prefix,
                lines[k].is_last,
                lines[k].is_dir,
            )
    }

    pub fn new(use_color: bool, full_path: bool) -> (r: TreePrinter)
        ensures
            r.use_color == use_color,
            r.full_path == full_path,
    {
        TreePrinter { use_color, full_path }
    }

    /// A label as it is written: styled where colors are on and the entry is
    /// a directory.
    fn written(&self, label: &str, is_dir: bool) -> (r: String)
        ensures
            if self.use_color && is_dir {
                painted(label@, r@)
            } else {
                r@ == label@
            },
    {
        if self.use_color && is_dir {
            paint_directory(label)
        } else {
            label.to_owned()
        }
    }

    /// The line that announces the root in tree mode; full-path mode has none.
    pub fn root_line(&self, root: &str) -> (r: Option<String>)
        ensures
            r.is_none() == self.full_path,
            match r {
                Some(line) => if self.use_color {
                    painted(root_label(root@), line@)
                } else {
                    line@ == root_label(root@)
                },
                None => true,
            },
    {
        if self.full_path {
            return None;
        }
        let line = match file_name_of(root) {
            Some(name) => self.written(name.as_str(), true),
            None => self.written(root, true),
        };
        Some(line)
    }

    /// Writes the line of one entry behind the lines already written.
    pub fn print_entry(
        &self,
        out: &mut Vec<String>,
        path: &str,
        prefix: &str,
        is_last: bool,
        is_dir: bool,
    )
        requires
            self.full_path || path_file_name(path@).is_some(),
        ensures
            final(out)@.len() == old(out)@.len() + 1,
            final(out)@.drop_last() == old(out)@,
            self.shows(final(out)@.last()@, path@, prefix@, is_last, is_dir),
    {
        if self.full_path {
            let line = self.written(path, is_dir);
            proof {
                assert(line@.subrange(0, 0) =~= Seq::<char>::empty());
                assert(line@.subrange(0, line@.len() as int) =~= line@);
                assert(Seq::<char>::empty() + path@ =~= path@);
            }
            out.push(line);
        } else {
            let connector = if is_last {
                "└── "
            } else {
                "├── "
            };
            let name = match file_name_of(path) {
                Some(name) => name,
                None => String::new(),
            };
            let label = self.written(name.as_str(), is_dir);
            let mut line = prefix.to_owned();
            line.append(connector);
            let ghost lead = line@;
            line.append(label.as_str());
            proof {
                assert(line@.subrange(0, lead.len() as int) =~= lead);
                assert(line@.subrange(lead.len() as int, line@.len() as int) =~= label@);
            }
            out.push(line);
        }
        proof {
            assert(out@.drop_last() =~= old(out)@);
        }
    }

    /// The indentation for the children of an entry.
    pub fn get_child_prefix(&self, prefix: &str, is_last: bool) -> (r: String)
        ensures
            r@ == self.child_prefix(prefix@, is_last),
    {
        if self.full_path {
            String::new()
        } else {
            let extension = if is_last {
                "    "
            } else {
                "│   "
            };
            let mut child = prefix.to_owned();
            child.append(extension);
            child
        }
    }
}

/// The lines for the first `k` children of `dir`, in ascending order of
/// their paths, each directory followed at once by the lines of its own
/// children under the extended indentation. (In a well-formed index every
/// child's path is longer than its directory's and within the span.)
pub open spec fn lines_upto(
    index: ParentIndex,
    printer: TreePrinter,
    dir: Seq<char>,
    prefix: Seq<char>,
    k: nat,
) -> Seq<LineSpec>
    decreases index.span@ - dir.len(), k,
{
    let kids = sort_by_path(index.children_of(dir));
    if k == 0 || k > kids.len() {
        Seq::empty()
    } else {
        let child = kids[k - 1];
        let is_last = k == kids.len();
        let own = LineSpec { path: child.path@, prefix, is_last, is_dir: child.is_dir };
        let below = if child.is_dir && dir.len() < child.path@.len() <= index.span@ {
            lines_upto(
                index,
                printer,
                child.path@,
                printer.child_prefix(prefix, is_last),
                sort_by_path(index.children_of(child.path@)).len(),
            )
        } else {
            Seq::empty()
        };
        lines_upto(index, printer, dir, prefix, (k - 1) as nat).push(own) + below
    }
}

/// All the lines below `dir`.
pub open spec fn tree_lines(
    index: ParentIndex,
    printer: TreePrinter,
    dir: Seq<char>,
    prefix: Seq<char>,
) -> Seq<LineSpec> {
    lines_upto(index, printer, dir, prefix, sort_by_path(index.children_of(dir)).len())
}

/// Lines drawn one after the other render the descriptions one after the
/// other.
pub proof fn lemma_renders_concat(
    printer: TreePrinter,
    a: Seq<LineSpec>,
    x: Seq<String>,
    b: Seq<LineSpec>,
    y: Seq<String>,
)
    requires
        printer.renders(a, x),
        printer.renders(b, y),
    ensures
        printer.renders(a + b, x + y),
{
    assert forall|k: int| 0 <= k < (a + b).len() implies printer.shows(
        (#[trigger] (x + y)[k])@,
        (a + b)[k].path,
        (a + b)[k].prefix,
        (a + b)[k].is_last,
        (a + b)[k].is_dir,
    ) by {
        if k < a.len() {
            assert((x + y)[k] == x[k]);
        } else {
            assert((x + y)[k] == y[k - a.len()]);
        }
    }
}

/// Writes the lines of everything below `current_dir`, depth first: the
/// children in ascending order of their paths, each directory followed by
/// its own subtree.
pub fn print_tree_recursive(
    current_dir: &String,
    index: &ParentIndex,
    printer: &TreePrinter,
    prefix: &str,
    out: &mut Vec<String>,
)
    requires
        index.wf(),
    ensures
        final(out)@.len() >= old(out)@.len(),
        final(out)@.take(old(out)@.len() as int) == old(out)@,
        printer.renders(
            tree_lines(*index, *printer, current_dir@, prefix@),
            final(out)@.skip(old(out)@.len() as int),
        ),
    decreases index.span@ - current_dir@.len(),
{
    let ghost start = out@;
    let ghost listed = index.children_of(current_dir@);
    let children = index.children(current_dir);
    let sorted = sort_entries(&children);
    let n = sorted.len();
    let mut i: usize = 0;
    proof {
        assert(out@.take(start.len() as int) =~= start);
        assert(out@.skip(start.len() as int) =~= Seq::<String>::empty());
    }
    while i < n
        invariant
            i <= n,
            n == sorted@.len(),
            listed == index.children_of(current_dir@),
            sorted@ == sort_by_path(listed),
            index.wf(),
            out@.len() >= start.len(),
            out@.take(start.len() as int) == start,
            printer.renders(
                lines_upto(*index, *printer, current_dir@, prefix@, i as nat),
                out@.skip(start.len() as int),
            ),
        decreases n - i,
    {
        let is_last = i == n - 1;
        let child = &sorted[i];
        let ghost done = lines_upto(*index, *printer, current_dir@, prefix@, i as nat);
        let ghost own = LineSpec {
            path: child.path@,
            prefix: prefix@,
            is_last,
            is_dir: child.is_dir,
        };
        let ghost drawn = out@.skip(start.len() as int);
        proof {
            lemma_sort_keeps_entries(listed, i as int);
            let m = choose|m: int| 0 <= m < listed.len() && listed[m] == sorted@[i as int];
            index.lemma_children_listed(current_dir@, m);
        }
        printer.print_entry(out, child.path.as_str(), prefix, is_last, child.is_dir);
        let ghost line = out@.last();
        proof {
            assert(out@ =~= out@.drop_last().push(line));
            assert(out@.take(start.len() as int) =~= start);
            assert(out@.skip(start.len() as int) =~= drawn + seq![line]);
            assert(printer.renders(seq![own], seq![line]));
            lemma_renders_concat(*printer, done, drawn, seq![own], seq![line]);
            assert(done + seq![own] =~= done.push(own));
        }
        let ghost middle = out@;
        if child.is_dir {
            let child_prefix = printer.get_child_prefix(prefix, is_last);
            print_tree_recursive(&child.path, index, printer, child_prefix.as_str(), out);
            proof {
                let below = tree_lines(*index, *printer, child.path@, child_prefix@);
                let tail = out@.skip(middle.len() as int);
                assert(out@ =~= middle + tail) by {
                    assert(out@.take(middle.len() as int) == middle);
                }
                assert(out@.take(start.len() as int) =~= start);
                assert(out@.skip(start.len() as int) =~= middle.skip(start.len() as int) + tail);
                lemma_renders_concat(
                    *printer,
                    done.push(own),
                    middle.skip(start.len() as int),
                    below,
                    tail,
                );
            }
        } else {
            proof {
                assert(done.push(own) + Seq::<LineSpec>::empty() =~= done.push(own));
            }
        }
        i = i + 1;
    }
}

/// Where the line of the child at position `i` among the sorted children of
/// `dir` stands within the lines below `dir`.
pub open spec fn line_position(
    index: ParentIndex,
    printer: TreePrinter,
    dir: Seq<char>,
    prefix: Seq<char>,
    i: int,
) -> int {
    lines_upto(index, printer, dir, prefix, i as nat).len() as int
}

/// The lines for the first `k` children open the lines for the first `m`,
/// for `k` at most `m`.
pub proof fn lemma_lines_grow(
    index: ParentIndex,
    printer: TreePrinter,
    dir: Seq<char>,
    prefix: Seq<char>,
    k: nat,
    m: nat,
)
    requires
        k <= m <= sort_by_path(index.children_of(dir)).len(),
    ensures
        lines_upto(index, printer, dir, prefix, k).len() <= lines_upto(
            index,
            printer,
            dir,
            prefix,
            m,
        ).len(),
        lines_upto(index, printer, dir, prefix, m).take(
            lines_upto(index, printer, dir, prefix, k).len() as int,
        ) == lines_upto(index, printer, dir, prefix, k),
    decreases m - k,
{
    let short = lines_upto(index, printer, dir, prefix, k);
    let long = lines_upto(index, printer, dir, prefix, m);
    if k < m {
        let shorter = lines_upto(index, printer, dir, prefix, (m - 1) as nat);
        lemma_lines_grow(index, printer, dir, prefix, k, (m - 1) as nat);
        assert(long.take(shorter.len() as int) =~= shorter);
        assert(long.take(short.len() as int) =~= shorter.take(short.len() as int));
    } else {
        assert(long.take(short.len() as int) =~= short);
    }
}

/// Every child of a directory has a line of its own below that directory: it
/// stands under the directory's indentation, and it is marked as the last
/// sibling exactly when the child is the last of the sorted children. So the
/// terminal connector is drawn for the last sibling and for no other.
pub proof fn lemma_child_line(
    index: ParentIndex,
    printer: TreePrinter,
    dir: Seq<char>,
    prefix: Seq<char>,
    i: int,
)
    requires
        0 <= i < sort_by_path(index.children_of(dir)).len(),
    ensures
        0 <= line_position(index, printer, dir, prefix, i) < tree_lines(
            index,
            printer,
            dir,
            prefix,
        ).len(),
        tree_lines(index, printer, dir, prefix)[line_position(index, printer, dir, prefix, i)] == (
        LineSpec {
            path: sort_by_path(index.children_of(dir))[i].path@,
            prefix,
            is_last: i == sort_by_path(index.children_of(dir)).len() - 1,
            is_dir: sort_by_path(index.children_of(dir))[i].is_dir,
        }),
{
    let kids = sort_by_path(index.children_of(dir));
    let upto = lines_upto(index, printer, dir, prefix, i as nat);
    let next = lines_upto(index, printer, dir, prefix, (i + 1) as nat);
    assert(next[upto.len() as int] == upto.push(
        LineSpec {
            path: kids[i].path@,
            prefix,
            is_last: i + 1 == kids.len(),
            is_dir: kids[i].is_dir,
        },
    )[upto.len() as int]);
    lemma_lines_grow(index, printer, dir, prefix, (i + 1) as nat, kids.len());
    let all = tree_lines(index, printer, dir, prefix);
    assert(all.take(next.len() as int)[upto.len() as int] == all[upto.len() as int]);
}

/// Siblings come out in ascending order of their full paths: of two children
/// of one directory, the one whose path is smaller has its line first.
pub proof fn lemma_siblings_in_order(
    index: ParentIndex,
    printer: TreePrinter,
    dir: Seq<char>,
    prefix: Seq<char>,
    i: int,
    j: int,
)
    requires
        0 <= i < j < sort_by_path(index.children_of(dir)).len(),
    ensures
        path_le(
            sort_by_path(index.children_of(dir))[i].path@,
            sort_by_path(index.children_of(dir))[j].path@,
        ),
        line_position(index, printer, dir, prefix, i) < line_position(
            index,
            printer,
            dir,
            prefix,
            j,
        ),
{
    lemma_sort_by_path(index.children_of(dir));
    lemma_lines_grow(index, printer, dir, prefix, (i + 1) as nat, j as nat);
}

/// The two connectors are different texts.
pub proof fn lemma_connectors_differ()
    ensures
        connector(true) != connector(false),
{
    reveal_strlit("└── ");
    reveal_strlit("├── ");
    assert(connector(true)[0] != connector(false)[0]);
}

/// In full-path mode a line holds no indentation and no connector, only the
/// entry's whole path; and the line of a file is that path and nothing else,
/// whether colors are on or off.
pub proof fn lemma_full_path_lines(
    printer: TreePrinter,
    out: Seq<char>,
    path: Seq<char>,
    prefix: Seq<char>,
    is_last: bool,
    is_dir: bool,
)
    requires
        printer.full_path,
    ensures
        printer.lead(prefix, is_last) == Seq::<char>::empty(),
        printer.label(path) == path,
        printer.child_prefix(prefix, is_last) == Seq::<char>::empty(),
        printer.shows(out, path, prefix, is_last, is_dir) ==> (out == path || (printer.use_color
            && is_dir && painted(path, out))),
        !is_dir ==> (printer.shows(out, path, prefix, is_last, is_dir) <==> out == path),
{
    assert(Seq::<char>::empty() + path =~= path);
    assert(out.subrange(0, out.len() as int) =~= out);
}

/// The lines below a directory depend on the index only through the
/// children that it lists: two well-formed indexes that list the same
/// children under every directory give the same lines.
pub proof fn lemma_lines_by_children(
    a: ParentIndex,
    b: ParentIndex,
    printer: TreePrinter,
    dir: Seq<char>,
    prefix: Seq<char>,
    k: nat,
)
    requires
        a.wf(),
        b.wf(),
        forall|d: Seq<char>| #[trigger] a.children_of(d) == b.children_of(d),
    ensures
        lines_upto(a, printer, dir, prefix, k) == lines_upto(b, printer, dir, prefix, k),
    decreases a.span@ - dir.len(), k,
{
    let listed = a.children_of(dir);
    let kids = sort_by_path(listed);
    assert(b.children_of(dir) == listed);
    if k != 0 && k <= kids.len() {
        let child = kids[k - 1];
        lemma_sort_keeps_entries(listed, k - 1);
        let m = choose|m: int| 0 <= m < listed.len() && listed[m] == child;
        a.lemma_children_listed(dir, m);
        b.lemma_children_listed(dir, m);
        lemma_lines_by_children(a, b, printer, dir, prefix, (k - 1) as nat);
        if child.is_dir {
            assert(a.children_of(child.path@) == b.children_of(child.path@));
            lemma_lines_by_children(
                a,
                b,
                printer,
                child.path@,
                printer.child_prefix(prefix, k == kids.len()),
                sort_by_path(a.children_of(child.path@)).len(),
            );
        }
    }
}

} // verus!
