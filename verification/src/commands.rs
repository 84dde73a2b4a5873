use vstd::prelude::*;
use vstd::string::StrSliceExecFns;

verus! {

/// Files whose name carries this extension hold corpus records.
pub const EXTENSION: &'static str = "commands";

/// The file-name suffix that marks a corpus file.
pub open spec fn marker_suffix() -> Seq<char> {
    seq!['.'] + EXTENSION@
}

/// A file name matches the marker iff it ends in `.commands` and has at
/// least one character before that suffix.
pub open spec fn matches_marker(name: Seq<char>) -> bool {
    name.len() > marker_suffix().len() && name.skip(name.len() - marker_suffix().len() as int)
        == marker_suffix()
}

/// One scanned file: its bare name and its text lines in file order.
pub struct CorpusFile {
    pub name: String,
    pub lines: Vec<String>,
}

/// Mathematical value of a `CorpusFile`.
pub struct CorpusFileModel {
    pub name: Seq<char>,
    pub lines: Seq<Seq<char>>,
}

impl DeepView for CorpusFile {
    type V = CorpusFileModel;

    open spec fn deep_view(&self) -> CorpusFileModel {
        CorpusFileModel { name: self.name@, lines: self.lines.deep_view() }
    }
}

/// The records a scan of these files emits: every line of every marked
/// file, in file order and within-file line order.
pub open spec fn parse_spec(files: Seq<CorpusFileModel>) -> Seq<Seq<char>>
    decreases files.len(),
{
    if files.len() == 0 {
        Seq::empty()
    } else {
        (if matches_marker(files[0].name) {
            files[0].lines
        } else {
            Seq::empty()
        }) + parse_spec(files.drop_first())
    }
}

/// Does this file name end in the corpus marker?
pub fn has_marker_extension(name: &str) -> (r: bool)
    ensures
        r == matches_marker(name@),
{
    proof {
        reveal_strlit("commands");
        reveal_strlit(".commands");
        assert(".commands"@ =~= marker_suffix());
    }
    let n = name.unicode_len();
    let suffix = ".commands";
    let m = suffix.unicode_len();
    if n <= m {
        return false;
    }
    let start = n - m;
    let mut j: usize = 0;
    while j < m
        invariant
            n == name@.len(),
            m == marker_suffix().len(),
            n > m,
            start == n - m,
            0 <= j <= m,
            suffix@ == marker_suffix(),
            name@.skip(start as int).take(j as int) == marker_suffix().take(j as int),
        decreases m - j,
    {
        if name.get_char(start + j) != suffix.get_char(j) {
            proof {
                assert(name@.skip(start as int)[j as int] == name@[start + j]);
                assert(name@.skip(start as int) != marker_suffix()) by {
                    assert(marker_suffix()[j as int] == suffix@[j as int]);
                }
            }
            return false;
        }
        proof {
            assert(name@.skip(start as int).take(j + 1) =~= name@.skip(start as int).take(
                j as int,
            ).push(name@[start + j]));
            assert(marker_suffix().take(j + 1) =~= marker_suffix().take(j as int).push(
                marker_suffix()[j as int],
            ));
            assert(marker_suffix()[j as int] == suffix@[j as int]);
        }
        j = j + 1;
    }
    proof {
        assert(name@.skip(start as int).take(m as int) =~= name@.skip(start as int));
        assert(marker_suffix().take(m as int) =~= marker_suffix());
    }
    true
}

/// The corpus scanner's record extraction: which files count and which
/// lines they contribute. Walking the directory tree and reading the files
/// is the caller's concern.
pub struct Commands {
    path: String,
}

impl Commands {
    /// The corpus root this scanner was created for.
    pub closed spec fn path_view(&self) -> Seq<char> {
        self.path@
    }

    pub fn new(path: String) -> (c: Commands)
        ensures
            c.path_view() == path@,
    {
        Commands { path }
    }

    /// Emit every line of every marked file, in traversal order, as
    /// `parse_spec` states.
    pub fn parse(&self, files: &Vec<CorpusFile>) -> (records: Vec<String>)
        ensures
            records.deep_view() == parse_spec(files.deep_view()),
    {
        let ghost fv = files.deep_view();
        let mut records: Vec<String> = Vec::new();
        let mut k: usize = 0;
        proof {
            assert(records.deep_view() =~= Seq::<Seq<char>>::empty());
            assert(fv.skip(0) =~= fv);
        }
        while k < files.len()
            invariant
                0 <= k <= files.len(),
                fv == files.deep_view(),
                parse_spec(fv) == records.deep_view() + parse_spec(fv.skip(k as int)),
            decreases files.len() - k,
        {
            let ghost pre = records.deep_view();
            let f = &files[k];
            if has_marker_extension(f.name.as_str()) {
                let mut j: usize = 0;
                while j < f.lines.len()
                    invariant
                        0 <= j <= f.lines.len(),
                        f == files[k as int],
                        k < files.len(),
                        fv == files.deep_view(),
                        records.deep_view() == pre + f.deep_view().lines.take(j as int),
                    decreases f.lines.len() - j,
                {
                    let ghost rp = records.deep_view();
                    records.push(f.lines[j].clone());
                    proof {
                        assert(records.deep_view() =~= rp.push(f.deep_view().lines[j as int]));
                        assert(f.deep_view().lines.take(j + 1) =~= f.deep_view().lines.take(
                            j as int,
                        ).push(f.deep_view().lines[j as int]));
                        assert(records.deep_view() =~= pre + f.deep_view().lines.take(j + 1));
                    }
                    j = j + 1;
                }
                proof {
                    assert(f.deep_view().lines.take(f.lines.len() as int) =~= f.deep_view().lines);
                }
            } else {
                proof {
                    assert(records.deep_view() =~= pre + Seq::<Seq<char>>::empty());
                }
            }
            proof {
                assert(fv.skip(k as int)[0] == fv[k as int]);
                assert(fv.skip(k as int).drop_first() =~= fv.skip(k + 1));
                assert(parse_spec(fv.skip(k as int)) == (if matches_marker(fv[k as int].name) {
                    fv[k as int].lines
                } else {
                    Seq::<Seq<char>>::empty()
                }) + parse_spec(fv.skip(k + 1)));
                assert(fv[k as int] == f.deep_view());
                assert(pre + ((if matches_marker(fv[k as int].name) {
                    fv[k as int].lines
                } else {
                    Seq::<Seq<char>>::empty()
                }) + parse_spec(fv.skip(k + 1))) =~= records.deep_view() + parse_spec(
                    fv.skip(k + 1),
                ));
            }
            k = k + 1;
        }
        proof {
            assert(fv.skip(files.len() as int) =~= Seq::<CorpusFileModel>::empty());
            assert(records.deep_view() + parse_spec(fv.skip(files.len() as int))
                =~= records.deep_view());
        }
        records
    }
}

} // verus!
