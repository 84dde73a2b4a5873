use vstd::prelude::*;
use vstd::string::StrSliceExecFns;
use vstd::string::StringExecFns;

verus! {

/// A markdown event, reduced to what the cheat-sheet format reads: block
/// quotes, list items, text runs and inline code spans.
pub enum MdEvent {
    StartBlockQuote,
    EndBlockQuote,
    StartItem,
    EndItem,
    Text(String),
    Code(String),
    Other,
}

/// Mathematical value of an `MdEvent`.
pub enum MdEventModel {
    StartBlockQuote,
    EndBlockQuote,
    StartItem,
    EndItem,
    Text(Seq<char>),
    Code(Seq<char>),
    Other,
}

impl DeepView for MdEvent {
    type V = MdEventModel;

    open spec fn deep_view(&self) -> MdEventModel {
        match self {
            MdEvent::StartBlockQuote => MdEventModel::StartBlockQuote,
            MdEvent::EndBlockQuote => MdEventModel::EndBlockQuote,
            MdEvent::StartItem => MdEventModel::StartItem,
            MdEvent::EndItem => MdEventModel::EndItem,
            MdEvent::Text(t) => MdEventModel::Text(t@),
            MdEvent::Code(t) => MdEventModel::Code(t@),
            MdEvent::Other => MdEventModel::Other,
        }
    }
}

/// The events a markdown document parses to; they depend on the source
/// text alone.
pub uninterp spec fn md_events_of(source: Seq<char>) -> Seq<MdEventModel>;

/// Relies on `pulldown_cmark::Parser::new` and its `Iterator` impl: the
/// event stream of a document is a pure function of the source text. Each
/// event is converted to the `MdEvent` of its kind; kinds this library
/// does not read become `Other`.
#[verifier::external_body]
fn markdown_events(source: &str) -> (evs: Vec<MdEvent>)
    ensures
        evs.deep_view() == md_events_of(source@),
{
    pulldown_cmark::Parser::new(source).map(
        |ev| match ev {
            pulldown_cmark::Event::Start(pulldown_cmark::Tag::BlockQuote(_)) => MdEvent::StartBlockQuote,
            pulldown_cmark::Event::End(pulldown_cmark::TagEnd::BlockQuote(_)) => MdEvent::EndBlockQuote,
            pulldown_cmark::Event::Start(pulldown_cmark::Tag::Item) => MdEvent::StartItem,
            pulldown_cmark::Event::End(pulldown_cmark::TagEnd::Item) => MdEvent::EndItem,
            pulldown_cmark::Event::Text(t) => MdEvent::Text(t.to_string()),
            pulldown_cmark::Event::Code(t) => MdEvent::Code(t.to_string()),
            _ => MdEvent::Other,
        },
    ).collect()
}

/// One entry of the corpus archive: its path inside the archive and its
/// text.
pub struct ArchiveEntry {
    pub path: String,
    pub text: String,
}

impl DeepView for ArchiveEntry {
    type V = (Seq<char>, Seq<char>);

    open spec fn deep_view(&self) -> (Seq<char>, Seq<char>) {
        (self.path@, self.text@)
    }
}

/// The readable UTF-8 entries of a gzipped tar archive, as (path, text)
/// pairs in archive order; they depend on the archive bytes alone.
pub uninterp spec fn archive_entries_of(bytes: Seq<u8>) -> Seq<(Seq<char>, Seq<char>)>;

/// Relies on `flate2::read::GzDecoder` and `tar::Archive`: decompressing
/// and unpacking in-memory bytes is a pure function of those bytes.
/// Entries whose path or contents cannot be read as UTF-8 text are left
/// out.
#[verifier::external_body]
fn read_archive(bytes: &Vec<u8>) -> (entries: Vec<ArchiveEntry>)
    ensures
        entries.deep_view() == archive_entries_of(bytes@),
{
    let mut archive = tar::Archive::new(flate2::read::GzDecoder::new(&bytes[..]));
    let mut out = Vec::new();
    let entries = match archive.entries() { Ok(entries) => entries, Err(_) => return out };
    for mut e in entries.flatten() {
        let path = match e.path().ok().and_then(|p| p.to_str().map(|s| s.to_string())) {
            Some(p) => p,
            None => continue,
        };
        let mut text = String::new();
        if std::io::Read::read_to_string(&mut e, &mut text).is_ok() {
            out.push(ArchiveEntry { path, text });
        }
    }
    out
}

/// State of the cheat-sheet reader: the description gathered from the
/// current list item, and whether the reader stands inside a list item or
/// a block quote.
pub struct TldrState {
    pub descr: Seq<char>,
    pub in_list_item: bool,
    pub in_blockquote: bool,
}

pub open spec fn init_state() -> TldrState {
    TldrState { descr: Seq::empty(), in_list_item: false, in_blockquote: false }
}

/// One corpus record: the command, the separator, the description.
pub open spec fn record_line(cmd: Seq<char>, descr: Seq<char>) -> Seq<char> {
    cmd + " ## "@ + descr
}

/// One step of the cheat-sheet reader. Text inside a list item extends the
/// description. A code span outside list items and block quotes is a
/// command: it emits one record — the command with the description
/// gathered so far, less its trailing character — and the description
/// starts afresh; a command that is empty emits nothing.
pub open spec fn tldr_step(st: TldrState, ev: MdEventModel) -> (TldrState, Seq<Seq<char>>) {
    match ev {
        MdEventModel::StartBlockQuote => (
            TldrState { in_blockquote: true, ..st },
            Seq::empty(),
        ),
        MdEventModel::EndBlockQuote => (TldrState { in_blockquote: false, ..st }, Seq::empty()),
        MdEventModel::StartItem => (TldrState { in_list_item: true, ..st }, Seq::empty()),
        MdEventModel::EndItem => (TldrState { in_list_item: false, ..st }, Seq::empty()),
        MdEventModel::Text(t) => if st.in_list_item {
            (TldrState { descr: st.descr + t, ..st }, Seq::empty())
        } else {
            (st, Seq::empty())
        },
        MdEventModel::Code(t) => if !st.in_list_item && !st.in_blockquote {
            let d = if st.descr.len() == 0 {
                st.descr
            } else {
                st.descr.drop_last()
            };
            let out = if t.len() > 0 {
                seq![record_line(t, d)]
            } else {
                Seq::<Seq<char>>::empty()
            };
            (TldrState { descr: Seq::empty(), ..st }, out)
        } else {
            (st, Seq::empty())
        },
        MdEventModel::Other => (st, Seq::empty()),
    }
}

/// The cheat-sheet reader over a whole event stream: the records emitted,
/// in order.
pub open spec fn parse_events_spec(st: TldrState, evs: Seq<MdEventModel>) -> (
    TldrState,
    Seq<Seq<char>>,
)
    decreases evs.len(),
{
    if evs.len() == 0 {
        (st, Seq::empty())
    } else {
        let (s1, out1) = tldr_step(st, evs[0]);
        let (s2, out2) = parse_events_spec(s1, evs.drop_first());
        (s2, out1 + out2)
    }
}

/// Where an entry's records go: the shared corpus file, the platform's
/// file, or nowhere.
pub enum EntryTarget {
    Common,
    Platform,
    Skip,
}

/// Offset of the last occurrence of `c` in `s`.
pub open spec fn rfind_char(s: Seq<char>, c: char) -> Option<int>
    decreases s.len(),
{
    if s.len() == 0 {
        None
    } else if s.last() == c {
        Some(s.len() - 1)
    } else {
        rfind_char(s.drop_last(), c)
    }
}

/// Which file an archive entry's records belong in: its name must end in
/// `.md` with a non-empty stem; the directory two levels up must be named
/// `pages`; the directory it sits in picks the shared file (`common`), the
/// running platform's file, or nothing.
pub open spec fn classify_spec(p: Seq<char>, platform: Option<Seq<char>>) -> EntryTarget {
    match rfind_char(p, '/') {
        None => EntryTarget::Skip,
        Some(i1) => {
            let file = p.skip(i1 + 1);
            if !(file.len() > ".md"@.len() && file.skip(file.len() - ".md"@.len() as int)
                == ".md"@) {
                EntryTarget::Skip
            } else {
                match rfind_char(p.take(i1), '/') {
                    None => EntryTarget::Skip,
                    Some(i2) => {
                        let folder = p.subrange(i2 + 1, i1);
                        let gp = match rfind_char(p.take(i2), '/') {
                            None => p.take(i2),
                            Some(i3) => p.subrange(i3 + 1, i2),
                        };
                        if gp != "pages"@ {
                            EntryTarget::Skip
                        } else if folder == "common"@ {
                            EntryTarget::Common
                        } else if platform is Some && folder == platform.unwrap() {
                            EntryTarget::Platform
                        } else {
                            EntryTarget::Skip
                        }
                    },
                }
            }
        },
    }
}

/// A file's contents: each record on a line of its own.
pub open spec fn rendered(records: Seq<Seq<char>>) -> Seq<char>
    decreases records.len(),
{
    if records.len() == 0 {
        Seq::empty()
    } else {
        rendered(records.drop_last()) + records.last() + "\n"@
    }
}

/// A parsed entry's contribution to a corpus file.
pub open spec fn entry_block(text: Seq<char>) -> Seq<char> {
    rendered(parse_events_spec(init_state(), md_events_of(text)).1)
}

/// The two corpus files an archive yields: entry by entry, in archive
/// order, each classified and its records appended to the shared file or
/// the platform's file.
pub open spec fn update_spec(entries: Seq<(Seq<char>, Seq<char>)>, platform: Option<Seq<char>>) -> (
    Seq<char>,
    Seq<char>,
)
    decreases entries.len(),
{
    if entries.len() == 0 {
        (Seq::empty(), Seq::empty())
    } else {
        let (c, pl) = update_spec(entries.drop_last(), platform);
        let e = entries.last();
        match classify_spec(e.0, platform) {
            EntryTarget::Common => (c + entry_block(e.1), pl),
            EntryTarget::Platform => (c, pl + entry_block(e.1)),
            EntryTarget::Skip => (c, pl),
        }
    }
}

/// Where the last occurrence stands: a hit is a real occurrence with none
/// after it; a miss means the character does not occur.
proof fn lemma_rfind_char(s: Seq<char>, c: char)
    ensures
        match rfind_char(s, c) {
            Some(d) => 0 <= d < s.len() && s[d] == c && forall|k: int|
                d < k < s.len() ==> s[k] != c,
            None => forall|k: int| 0 <= k < s.len() ==> s[k] != c,
        },
    decreases s.len(),
{
    if s.len() == 0 {
    } else if s.last() == c {
    } else {
        lemma_rfind_char(s.drop_last(), c);
        assert(forall|k: int| 0 <= k < s.len() - 1 ==> s.drop_last()[k] == s[k]);
    }
}

/// Last occurrence of `c` in the first `end` characters of `s`.
fn rfind_in_prefix(s: &str, end: usize, c: char) -> (r: Option<usize>)
    requires
        end <= s@.len(),
    ensures
        match r {
            Some(d) => rfind_char(s@.take(end as int), c) == Some(d as int),
            None => rfind_char(s@.take(end as int), c) is None,
        },
{
    let ghost pre = s@.take(end as int);
    let mut i: usize = end;
    while i > 0 && s.get_char(i - 1) != c
        invariant
            0 <= i <= end <= s@.len(),
            pre == s@.take(end as int),
            forall|k: int| i <= k < end ==> pre[k] != c,
        decreases i,
    {
        proof {
            assert(pre[i - 1] == s@[i - 1]);
        }
        i = i - 1;
    }
    proof {
        lemma_rfind_char(pre, c);
    }
    if i == 0 {
        proof {
            if rfind_char(pre, c) is Some {
                let d = rfind_char(pre, c).unwrap();
                assert(pre[d] != c);
            }
        }
        None
    } else {
        proof {
            assert(pre[i - 1] == s@[i - 1]);
            match rfind_char(pre, c) {
                Some(d) => {
                    if d < i - 1 {
                        assert(pre[i - 1] != c);
                    }
                    if d > i - 1 {
                        assert(pre[d] != c);
                    }
                    assert(d == i - 1);
                },
                None => {
                    assert(pre[i - 1] != c);
                },
            }
        }
        Some(i - 1)
    }
}

/// Do characters `from..to` of `s` spell exactly `lit`?
fn range_eq(s: &str, from: usize, to: usize, lit: &str) -> (r: bool)
    requires
        from <= to <= s@.len(),
    ensures
        r == (s@.subrange(from as int, to as int) == lit@),
{
    let ghost seg = s@.subrange(from as int, to as int);
    let m = lit.unicode_len();
    if to - from != m {
        return false;
    }
    let mut j: usize = 0;
    while j < m
        invariant
            from <= to <= s@.len(),
            to - from == m == lit@.len(),
            0 <= j <= m,
            seg == s@.subrange(from as int, to as int),
            seg.take(j as int) == lit@.take(j as int),
        decreases m - j,
    {
        if s.get_char(from + j) != lit.get_char(j) {
            proof {
                assert(seg[j as int] == s@[from + j]);
                assert(seg != lit@) by {
                    assert(lit@[j as int] != seg[j as int]);
                }
            }
            return false;
        }
        proof {
            assert(seg[j as int] == s@[from + j]);
            assert(seg.take(j + 1) =~= seg.take(j as int).push(seg[j as int]));
            assert(lit@.take(j + 1) =~= lit@.take(j as int).push(lit@[j as int]));
        }
        j = j + 1;
    }
    proof {
        assert(seg.take(m as int) =~= seg);
        assert(lit@.take(m as int) =~= lit@);
    }
    true
}

/// Classify one archive entry's path, as `classify_spec` states.
fn classify(path: &str, platform: &Option<String>) -> (t: EntryTarget)
    ensures
        t == classify_spec(path@, platform.deep_view()),
{
    let n = path.unicode_len();
    let i1 = match rfind_in_prefix(path, n, '/') {
        None => {
            proof {
                assert(path@.take(n as int) =~= path@);
            }
            return EntryTarget::Skip;
        },
        Some(i) => i,
    };
    proof {
        assert(path@.take(n as int) =~= path@);
        lemma_rfind_char(path@, '/');
    }
    let ghost file = path@.skip(i1 + 1);
    // the file name must end in `.md` with something before it
    proof {
        reveal_strlit(".md");
    }
    if n - i1 - 1 <= 3 {
        return EntryTarget::Skip;
    }
    if !range_eq(path, n - 3, n, ".md") {
        proof {
            assert(file.skip(file.len() - 3) =~= path@.subrange(n - 3, n as int));
        }
        return EntryTarget::Skip;
    }
    proof {
        assert(file.skip(file.len() - 3) =~= path@.subrange(n - 3, n as int));
    }
    let i2 = match rfind_in_prefix(path, i1, '/') {
        None => {
            return EntryTarget::Skip;
        },
        Some(i) => i,
    };
    // the directory two levels up must be `pages`
    proof {
        reveal_strlit("pages");
        lemma_rfind_char(path@.take(i1 as int), '/');
    }
    let gp_ok = match rfind_in_prefix(path, i2, '/') {
        None => {
            let r = range_eq(path, 0, i2, "pages");
            proof {
                assert(path@.take(i2 as int) =~= path@.subrange(0, i2 as int));
            }
            r
        },
        Some(i3) => {
            proof {
                lemma_rfind_char(path@.take(i2 as int), '/');
            }
            let r = range_eq(path, i3 + 1, i2, "pages");
            r
        },
    };
    if !gp_ok {
        return EntryTarget::Skip;
    }
    // the directory the file sits in picks its corpus file
    proof {
        reveal_strlit("common");
    }
    if range_eq(path, i2 + 1, i1, "common") {
        return EntryTarget::Common;
    }
    match platform {
        Some(pl) => {
            let pn = pl.as_str().unicode_len();
            if i1 - i2 - 1 == pn && range_eq(path, i2 + 1, i1, pl.as_str()) {
                EntryTarget::Platform
            } else {
                EntryTarget::Skip
            }
        },
        None => EntryTarget::Skip,
    }
}

/// Append each record to the file's contents, one per line.
fn append_block(buf: &mut String, records: &Vec<String>)
    ensures
        final(buf)@ == old(buf)@ + rendered(records.deep_view()),
{
    let ghost rs = records.deep_view();
    let mut j: usize = 0;
    proof {
        assert(rs.take(0) =~= Seq::<Seq<char>>::empty());
        assert(old(buf)@ + rendered(rs.take(0)) =~= old(buf)@);
    }
    while j < records.len()
        invariant
            0 <= j <= records.len(),
            rs == records.deep_view(),
            buf@ == old(buf)@ + rendered(rs.take(j as int)),
        decreases records.len() - j,
    {
        buf.append(records[j].as_str());
        buf.append("\n");
        proof {
            assert(rs.take(j + 1).drop_last() =~= rs.take(j as int));
            assert(rs.take(j + 1).last() == rs[j as int]);
            assert(rendered(rs.take(j + 1)) == rendered(rs.take(j as int)) + rs[j as int] + "\n"@);
            assert(buf@ =~= old(buf)@ + rendered(rs.take(j + 1)));
        }
        j = j + 1;
    }
    proof {
        assert(rs.take(records.len() as int) =~= rs);
    }
}

/// Rebuilds the corpus files from the upstream cheat-sheet archive: the
/// decisions and the text assembly; fetching the archive and writing the
/// files out are the caller's concern.
pub struct Updater {
    platform: Option<String>,
}

impl Updater {
    /// The platform whose pages are kept beside the shared ones, if any.
    pub closed spec fn platform_view(&self) -> Option<Seq<char>> {
        self.platform.deep_view()
    }

    pub fn new(platform: Option<String>) -> (u: Updater)
        ensures
            u.platform_view() == platform.deep_view(),
    {
        Updater { platform }
    }

    /// Read one cheat-sheet document into corpus records, as
    /// `parse_events_spec` over the document's events states.
    pub fn parse_file(&self, source: &str) -> (records: Vec<String>)
        ensures
            records.deep_view() == parse_events_spec(init_state(), md_events_of(source@)).1,
    {
        let evs = markdown_events(source);
        Updater::parse_events(evs)
    }

    /// The cheat-sheet reader over an event stream, as `parse_events_spec`
    /// states.
    pub fn parse_events(events: Vec<MdEvent>) -> (records: Vec<String>)
        ensures
            records.deep_view() == parse_events_spec(init_state(), events.deep_view()).1,
    {
        let ghost e0 = events.deep_view();
        let mut rest = events;
        let mut records: Vec<String> = Vec::new();
        let mut descr = String::new();
        let mut in_list_item = false;
        let mut in_blockquote = false;
        let ghost mut st = init_state();
        proof {
            assert(records.deep_view() =~= Seq::<Seq<char>>::empty());
            assert(st.descr =~= descr@);
        }
        while rest.len() > 0
            invariant
                st == (TldrState { descr: descr@, in_list_item, in_blockquote }),
                parse_events_spec(init_state(), e0).1 == records.deep_view() + parse_events_spec(
                    st,
                    rest.deep_view(),
                ).1,
            decreases rest.len(),
        {
            let ghost pre_evs = rest.deep_view();
            let ghost pre_recs = records.deep_view();
            let ghost pre_st = st;
            let ev = rest.remove(0);
            proof {
                assert(rest.deep_view() =~= pre_evs.drop_first());
                assert(ev.deep_view() == pre_evs[0]);
            }
            match ev {
                MdEvent::StartBlockQuote => {
                    in_blockquote = true;
                },
                MdEvent::EndBlockQuote => {
                    in_blockquote = false;
                },
                MdEvent::StartItem => {
                    in_list_item = true;
                },
                MdEvent::EndItem => {
                    in_list_item = false;
                },
                MdEvent::Text(t) => {
                    if in_list_item {
                        descr.append(t.as_str());
                    }
                },
                MdEvent::Code(t) => {
                    if !in_list_item && !in_blockquote {
                        let dn = descr.as_str().unicode_len();
                        let d = if dn == 0 {
                            String::new()
                        } else {
                            descr.as_str().substring_char(0, dn - 1).to_owned()
                        };
                        proof {
                            if dn == 0 {
                                assert(d@ =~= pre_st.descr);
                            } else {
                                assert(d@ =~= pre_st.descr.drop_last());
                            }
                        }
                        if t.as_str().unicode_len() > 0 {
                            let mut line = t;
                            line.append(" ## ");
                            line.append(d.as_str());
                            records.push(line);
                            proof {
                                assert(records.deep_view() =~= pre_recs + seq![
                                    record_line(pre_evs[0]->Code_0, if pre_st.descr.len() == 0 {
                                        pre_st.descr
                                    } else {
                                        pre_st.descr.drop_last()
                                    }),
                                ]);
                            }
                        }
                        descr = String::new();
                    }
                },
                MdEvent::Other => {},
            }
            proof {
                st = TldrState { descr: descr@, in_list_item, in_blockquote };
                let (s1, out1) = tldr_step(pre_st, pre_evs[0]);
                assert(st == s1);
                assert(parse_events_spec(pre_st, pre_evs).1 == out1 + parse_events_spec(
                    s1,
                    pre_evs.drop_first(),
                ).1);
                assert(pre_recs + Seq::<Seq<char>>::empty() =~= pre_recs);
                assert(pre_recs + (out1 + parse_events_spec(s1, pre_evs.drop_first()).1) =~= (
                pre_recs + out1) + parse_events_spec(s1, pre_evs.drop_first()).1);
                assert(records.deep_view() =~= pre_recs + out1);
            }
        }
        proof {
            assert(rest.deep_view().len() == 0);
            assert(parse_events_spec(st, rest.deep_view()).1 =~= Seq::<Seq<char>>::empty());
            assert(records.deep_view() + Seq::<Seq<char>>::empty() =~= records.deep_view());
        }
        records
    }

    /// Sort every archive entry's records into the two corpus files, as
    /// `update_spec` states: the shared file's contents, and the platform
    /// file's where a platform is set.
    pub fn parse_files(&self, entries: &Vec<ArchiveEntry>) -> (r: (String, Option<String>))
        ensures
            r.0@ == update_spec(entries.deep_view(), self.platform_view()).0,
            match r.1 {
                Some(p) => self.platform_view() is Some && p@ == update_spec(
                    entries.deep_view(),
                    self.platform_view(),
                ).1,
                None => self.platform_view() is None,
            },
    {
        let ghost ev = entries.deep_view();
        let ghost pf = self.platform_view();
        let mut common = String::new();
        let mut plat: Option<String> = match &self.platform {
            Some(_) => Some(String::new()),
            None => None,
        };
        let mut k: usize = 0;
        proof {
            assert(ev.take(0) =~= Seq::<(Seq<char>, Seq<char>)>::empty());
        }
        while k < entries.len()
            invariant
                0 <= k <= entries.len(),
                ev == entries.deep_view(),
                pf == self.platform_view(),
                common@ == update_spec(ev.take(k as int), pf).0,
                match plat {
                    Some(p) => pf is Some && p@ == update_spec(ev.take(k as int), pf).1,
                    None => pf is None,
                },
            decreases entries.len() - k,
        {
            let ghost pre_common = common@;
            let e = &entries[k];
            proof {
                assert(ev.take(k + 1).drop_last() =~= ev.take(k as int));
                assert(ev.take(k + 1).last() == ev[k as int]);
                assert(ev[k as int] == e.deep_view());
            }
            match classify(e.path.as_str(), &self.platform) {
                EntryTarget::Common => {
                    let records = self.parse_file(e.text.as_str());
                    append_block(&mut common, &records);
                },
                EntryTarget::Platform => {
                    let records = self.parse_file(e.text.as_str());
                    match &mut plat {
                        Some(p) => {
                            append_block(p, &records);
                        },
                        None => {
                            proof {
                                assert(false);
                            }
                        },
                    }
                },
                EntryTarget::Skip => {},
            }
            k = k + 1;
        }
        proof {
            assert(ev.take(entries.len() as int) =~= ev);
        }
        (common, plat)
    }

    /// Rebuild the corpus files from the raw archive bytes: unpack, read
    /// every cheat-sheet document, and assemble the two files' contents.
    pub fn update(&self, archive: &Vec<u8>) -> (r: (String, Option<String>))
        ensures
            r.0@ == update_spec(archive_entries_of(archive@), self.platform_view()).0,
            match r.1 {
                Some(p) => self.platform_view() is Some && p@ == update_spec(
                    archive_entries_of(archive@),
                    self.platform_view(),
                ).1,
                None => self.platform_view() is None,
            },
    {
        let entries = read_archive(archive);
        self.parse_files(&entries)
    }
}

} // verus!
