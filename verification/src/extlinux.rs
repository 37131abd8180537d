//! The boot-menu configuration reader: a line-oriented scan for a fixed set
//! of top-level keys and a list of boot entries, each a handful of named
//! fields. Each key takes the value of its last matching line.

use vstd::prelude::*;
use crate::parse::{spec_split_lines, split_lines};
use crate::text::{
    parse_usize, spec_parse_usize, spec_starts_with, spec_trim, starts_with_str, trim_str,
};

verus! {

/// One selectable boot entry: all fields optional until populated.
pub struct ExtlinuxEntry {
    pub label: Option<String>,
    pub menu_label: Option<String>,
    pub linux: Option<String>,
    pub fdt: Option<String>,
    pub initrd: Option<String>,
    pub append: Option<String>,
}

/// Ghost model of a boot entry.
pub struct EntryModel {
    pub label: Option<Seq<char>>,
    pub menu_label: Option<Seq<char>>,
    pub linux: Option<Seq<char>>,
    pub fdt: Option<Seq<char>>,
    pub initrd: Option<Seq<char>>,
    pub append: Option<Seq<char>>,
}

/// View of an optional string as an optional character sequence.
pub open spec fn opt_view(o: Option<String>) -> Option<Seq<char>> {
    match o {
        Some(s) => Some(s@),
        None => None,
    }
}

impl View for ExtlinuxEntry {
    type V = EntryModel;

    open spec fn view(&self) -> EntryModel {
        EntryModel {
            label: opt_view(self.label),
            menu_label: opt_view(self.menu_label),
            linux: opt_view(self.linux),
            fdt: opt_view(self.fdt),
            initrd: opt_view(self.initrd),
            append: opt_view(self.append),
        }
    }
}

/// The value a key takes after scanning `lines` in order, starting from
/// `init`: the last line whose text (raw, or trimmed when `raw` is false)
/// begins with `pre` sets it to the rest of that text, trimmed.
pub open spec fn spec_field(
    lines: Seq<Seq<char>>,
    init: Option<Seq<char>>,
    pre: Seq<char>,
    raw: bool,
) -> Option<Seq<char>>
    decreases lines.len(),
{
    if lines.len() == 0 {
        init
    } else {
        let prev = spec_field(lines.drop_last(), init, pre, raw);
        let t = if raw {
            lines.last()
        } else {
            spec_trim(lines.last())
        };
        if spec_starts_with(t, pre) {
            Some(spec_trim(t.skip(pre.len() as int)))
        } else {
            prev
        }
    }
}

/// As [`spec_field`], but the value is read as an unsigned decimal; a
/// matching line whose value does not parse clears the key.
pub open spec fn spec_num_field(
    lines: Seq<Seq<char>>,
    init: Option<usize>,
    pre: Seq<char>,
) -> Option<usize>
    decreases lines.len(),
{
    if lines.len() == 0 {
        init
    } else {
        let prev = spec_num_field(lines.drop_last(), init, pre);
        if spec_starts_with(lines.last(), pre) {
            spec_parse_usize(spec_trim(lines.last().skip(pre.len() as int)))
        } else {
            prev
        }
    }
}

/// The entry read from one segment of lines, every field starting empty.
pub open spec fn spec_entry_of(seg: Seq<Seq<char>>) -> EntryModel {
    EntryModel {
        label: spec_field(seg, None, "LABEL"@, true),
        menu_label: spec_field(seg, None, "MENU LABEL"@, false),
        linux: spec_field(seg, None, "LINUX"@, false),
        fdt: spec_field(seg, None, "FDT"@, false),
        initrd: spec_field(seg, None, "INITRD"@, false),
        append: spec_field(seg, None, "APPEND"@, false),
    }
}

/// The line indices among the first `i` lines that begin a boot entry: the
/// lines whose raw text begins with the entry marker.
pub open spec fn spec_label_lines_upto(lines: Seq<Seq<char>>, i: int) -> Seq<usize>
    decreases i,
{
    if i <= 0 {
        Seq::empty()
    } else {
        spec_label_lines_upto(lines, i - 1) + (if spec_starts_with(lines[i - 1], "LABEL"@) {
            seq![(i - 1) as usize]
        } else {
            Seq::<usize>::empty()
        })
    }
}

/// The entry segments of a document: each label line starts a segment that
/// runs to the next label line, the last one to the end of the document.
pub open spec fn spec_entries(lines: Seq<Seq<char>>) -> Seq<EntryModel> {
    let ls = spec_label_lines_upto(lines, lines.len() as int);
    Seq::new(
        ls.len(),
        |k: int|
            spec_entry_of(
                lines.subrange(
                    ls[k] as int,
                    if k + 1 < ls.len() {
                        ls[k + 1] as int
                    } else {
                        lines.len() as int
                    },
                ),
            ),
    )
}

/// Models of a sequence of entries, element by element.
pub open spec fn entries_models(es: Seq<ExtlinuxEntry>) -> Seq<EntryModel> {
    Seq::new(es.len(), |i: int| es[i]@)
}

/// If the (raw or trimmed) line begins with `pre`, the rest of it, trimmed.
fn match_field(t: &str, pre: &str) -> (r: Option<String>)
    ensures
        match r {
            Some(v) => spec_starts_with(t@, pre@) && v@ == spec_trim(t@.skip(pre@.len() as int)),
            None => !spec_starts_with(t@, pre@),
        },
{
    if starts_with_str(t, pre) {
        let n = t.unicode_len();
        let m = pre.unicode_len();
        let rest = t.substring_char(m, n);
        proof {
            assert(rest@ =~= t@.skip(pre@.len() as int));
        }
        Some(trim_str(rest).to_owned())
    } else {
        None
    }
}

impl ExtlinuxEntry {
    /// Scan the segment's lines and fill each field from its last matching
    /// line: the entry marker is matched against the raw line, the other
    /// five keys against the trimmed line.
    pub fn init(&mut self, content: &Vec<String>)
        ensures
            final(self)@.label == spec_field(content.deep_view(), old(self)@.label, "LABEL"@, true),
            final(self)@.menu_label == spec_field(
                content.deep_view(),
                old(self)@.menu_label,
                "MENU LABEL"@,
                false,
            ),
            final(self)@.linux == spec_field(
                content.deep_view(),
                old(self)@.linux,
                "LINUX"@,
                false,
            ),
            final(self)@.fdt == spec_field(content.deep_view(), old(self)@.fdt, "FDT"@, false),
            final(self)@.initrd == spec_field(
                content.deep_view(),
                old(self)@.initrd,
                "INITRD"@,
                false,
            ),
            final(self)@.append == spec_field(
                content.deep_view(),
                old(self)@.append,
                "APPEND"@,
                false,
            ),
    {
        let ghost dv = content.deep_view();
        let n = content.len();
        proof {
            assert(forall|k: int| 0 <= k < n ==> dv[k] == content@[k]@);
        }
        let mut i: usize = 0;
        while i < n
            invariant
                0 <= i <= n,
                n == content@.len(),
                dv == content.deep_view(),
                dv.len() == n,
                forall|k: int| 0 <= k < n ==> dv[k] == content@[k]@,
                self@.label == spec_field(dv.subrange(0, i as int), old(self)@.label, "LABEL"@, true),
                self@.menu_label == spec_field(
                    dv.subrange(0, i as int),
                    old(self)@.menu_label,
                    "MENU LABEL"@,
                    false,
                ),
                self@.linux == spec_field(
                    dv.subrange(0, i as int),
                    old(self)@.linux,
                    "LINUX"@,
                    false,
                ),
                self@.fdt == spec_field(dv.subrange(0, i as int), old(self)@.fdt, "FDT"@, false),
                self@.initrd == spec_field(
                    dv.subrange(0, i as int),
                    old(self)@.initrd,
                    "INITRD"@,
                    false,
                ),
                self@.append == spec_field(
                    dv.subrange(0, i as int),
                    old(self)@.append,
                    "APPEND"@,
                    false,
                ),
            decreases n - i,
        {
            let l: &String = &content[i];
            match match_field(l.as_str(), "LABEL") {
                Some(v) => {
                    self.label = Some(v);
                },
                None => {},
            }
            let t = trim_str(l.as_str());
            match match_field(t, "MENU LABEL") {
                Some(v) => {
                    self.menu_label = Some(v);
                },
                None => {},
            }
            match match_field(t, "LINUX") {
                Some(v) => {
                    self.linux = Some(v);
                },
                None => {},
            }
            match match_field(t, "FDT") {
                Some(v) => {
                    self.fdt = Some(v);
                },
                None => {},
            }
            match match_field(t, "INITRD") {
                Some(v) => {
                    self.initrd = Some(v);
                },
                None => {},
            }
            match match_field(t, "APPEND") {
                Some(v) => {
                    self.append = Some(v);
                },
                None => {},
            }
            proof {
                assert(dv.subrange(0, i + 1).drop_last() =~= dv.subrange(0, i as int));
                assert(dv.subrange(0, i + 1).last() == dv[i as int]);
            }
            i = i + 1;
        }
        proof {
            assert(dv.subrange(0, n as int) =~= dv);
        }
    }
}

/// The boot-menu configuration: its fixed top-level keys and its entries.
pub struct Extlinux {
    pub timeout: Option<usize>,
    pub default: Option<String>,
    pub menu_title: Option<String>,
    pub entries: Vec<ExtlinuxEntry>,
}

/// Copy the lines of the half-open range `[a, b)`.
fn slice_lines(lines: &Vec<String>, a: usize, b: usize) -> (r: Vec<String>)
    requires
        a <= b <= lines@.len(),
    ensures
        r.deep_view() == lines.deep_view().subrange(a as int, b as int),
{
    let ghost dv = lines.deep_view();
    proof {
        assert(forall|k: int| 0 <= k < lines@.len() ==> dv[k] == lines@[k]@);
    }
    let mut r: Vec<String> = Vec::new();
    let mut j: usize = a;
    while j < b
        invariant
            a <= j <= b <= lines@.len(),
            dv == lines.deep_view(),
            dv.len() == lines@.len(),
            forall|k: int| 0 <= k < lines@.len() ==> dv[k] == lines@[k]@,
            r.deep_view() == dv.subrange(a as int, j as int),
        decreases b - j,
    {
        let ghost r0 = r.deep_view();
        r.push(lines[j].clone());
        proof {
            assert(r.deep_view() =~= r0 + seq![dv[j as int]]);
            assert(r.deep_view() =~= dv.subrange(a as int, j + 1));
        }
        j = j + 1;
    }
    r
}

impl Extlinux {
    /// Scan the whole configuration text: fill the top-level keys from
    /// their last matching raw lines, then append one entry per label line,
    /// each read from the segment that runs to the next label line or the
    /// end of the text.
    pub fn init(&mut self, content: String)
        ensures
            final(self).timeout == spec_num_field(
                spec_split_lines(content@),
                old(self).timeout,
                "TIMEOUT"@,
            ),
            opt_view(final(self).default) == spec_field(
                spec_split_lines(content@),
                opt_view(old(self).default),
                "DEFAULT"@,
                true,
            ),
            opt_view(final(self).menu_title) == spec_field(
                spec_split_lines(content@),
                opt_view(old(self).menu_title),
                "MENU TITLE"@,
                true,
            ),
            entries_models(final(self).entries@) == entries_models(old(self).entries@)
                + spec_entries(spec_split_lines(content@)),
    {
        let lines = split_lines(content.as_str());
        let ghost dv = lines.deep_view();
        let n = lines.len();
        proof {
            assert(forall|k: int| 0 <= k < n ==> dv[k] == lines@[k]@);
        }
        let mut i: usize = 0;
        while i < n
            invariant
                0 <= i <= n,
                n == lines@.len(),
                dv == lines.deep_view(),
                dv.len() == n,
                forall|k: int| 0 <= k < n ==> dv[k] == lines@[k]@,
                self.timeout == spec_num_field(
                    dv.subrange(0, i as int),
                    old(self).timeout,
                    "TIMEOUT"@,
                ),
                opt_view(self.default) == spec_field(
                    dv.subrange(0, i as int),
                    opt_view(old(self).default),
                    "DEFAULT"@,
                    true,
                ),
                opt_view(self.menu_title) == spec_field(
                    dv.subrange(0, i as int),
                    opt_view(old(self).menu_title),
                    "MENU TITLE"@,
                    true,
                ),
                self.entries == old(self).entries,
            decreases n - i,
        {
            let l: &String = &lines[i];
            match match_field(l.as_str(), "TIMEOUT") {
                Some(v) => {
                    self.timeout = parse_usize(v.as_str());
                },
                None => {},
            }
            match match_field(l.as_str(), "DEFAULT") {
                Some(v) => {
                    self.default = Some(v);
                },
                None => {},
            }
            match match_field(l.as_str(), "MENU TITLE") {
                Some(v) => {
                    self.menu_title = Some(v);
                },
                None => {},
            }
            proof {
                assert(dv.subrange(0, i + 1).drop_last() =~= dv.subrange(0, i as int));
                assert(dv.subrange(0, i + 1).last() == dv[i as int]);
            }
            i = i + 1;
        }
        proof {
            assert(dv.subrange(0, n as int) =~= dv);
        }
        let mut labels: Vec<usize> = Vec::new();
        let mut j: usize = 0;
        while j < n
            invariant
                0 <= j <= n,
                n == lines@.len(),
                dv == lines.deep_view(),
                dv.len() == n,
                forall|k: int| 0 <= k < n ==> dv[k] == lines@[k]@,
                labels@ == spec_label_lines_upto(dv, j as int),
                forall|k: int| 0 <= k < labels@.len() ==> labels@[k] < j,
                forall|k1: int, k2: int|
                    0 <= k1 < k2 < labels@.len() ==> labels@[k1] < labels@[k2],
            decreases n - j,
        {
            if starts_with_str(lines[j].as_str(), "LABEL") {
                let ghost l0 = labels@;
                labels.push(j);
                proof {
                    assert(labels@ =~= spec_label_lines_upto(dv, j + 1));
                }
            } else {
                proof {
                    assert(labels@ =~= spec_label_lines_upto(dv, j + 1));
                }
            }
            j = j + 1;
        }
        let ghost ls = spec_label_lines_upto(dv, n as int);
        let m = labels.len();
        let mut k: usize = 0;
        while k < m
            invariant
                0 <= k <= m,
                n == lines@.len(),
                dv == lines.deep_view(),
                dv.len() == n,
                m == labels@.len(),
                labels@ == ls,
                ls == spec_label_lines_upto(dv, n as int),
                forall|q: int| 0 <= q < m ==> labels@[q] < n,
                forall|q1: int, q2: int| 0 <= q1 < q2 < m ==> labels@[q1] < labels@[q2],
                entries_models(self.entries@) == entries_models(old(self).entries@)
                    + spec_entries(dv).subrange(0, k as int),
                self.timeout == spec_num_field(dv, old(self).timeout, "TIMEOUT"@),
                opt_view(self.default) == spec_field(
                    dv,
                    opt_view(old(self).default),
                    "DEFAULT"@,
                    true,
                ),
                opt_view(self.menu_title) == spec_field(
                    dv,
                    opt_view(old(self).menu_title),
                    "MENU TITLE"@,
                    true,
                ),
            decreases m - k,
        {
            let a = labels[k];
            let b = if k + 1 < m {
                labels[k + 1]
            } else {
                n
            };
            let seg = slice_lines(&lines, a, b);
            let mut entry = ExtlinuxEntry {
                label: None,
                menu_label: None,
                linux: None,
                fdt: None,
                initrd: None,
                append: None,
            };
            entry.init(&seg);
            proof {
                assert(entry@ == spec_entry_of(dv.subrange(a as int, b as int)));
                assert(spec_entries(dv)[k as int] == spec_entry_of(
                    dv.subrange(a as int, b as int),
                ));
            }
            let ghost e0 = self.entries@;
            self.entries.push(entry);
            proof {
                assert(entries_models(self.entries@) =~= entries_models(e0) + seq![entry@]);
                assert(entries_models(self.entries@) =~= entries_models(old(self).entries@)
                    + spec_entries(dv).subrange(0, k + 1));
            }
            k = k + 1;
        }
        proof {
            assert(spec_entries(dv).subrange(0, spec_entries(dv).len() as int) =~= spec_entries(
                dv,
            ));
        }
    }
}

} // verus!
