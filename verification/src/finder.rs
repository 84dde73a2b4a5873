use vstd::prelude::*;
use crate::events::FinderCommand;
use crate::events::FinderCommandModel;
use crate::matcher::MatchModel;
use crate::matcher::MatchResult;
use crate::matcher::Matcher;
use crate::matcher::run_spec;

verus! {

/// How many results a published result set may hold.
pub const RESULT_CAP: usize = 10;

/// Mathematical state of the coordinator: the last corpus snapshot seen
/// and the last query seen.
pub struct FinderModel {
    pub buffer: Seq<Seq<char>>,
    pub query: Option<Seq<char>>,
}

/// One coordinator step: replace the snapshot or the query, then rerun the
/// matcher over the latest pair and publish the result set.
pub open spec fn finder_step(s: FinderModel, cmd: FinderCommandModel) -> (
    FinderModel,
    Seq<MatchModel>,
) {
    match cmd {
        FinderCommandModel::Refresh(data) => {
            let s1 = FinderModel { buffer: data, query: s.query };
            (s1, run_spec(s1.buffer, s1.query, RESULT_CAP as int))
        },
        FinderCommandModel::Query(q) => {
            let s1 = FinderModel { buffer: s.buffer, query: Some(q) };
            (s1, run_spec(s1.buffer, s1.query, RESULT_CAP as int))
        },
    }
}

/// The coordinator loop: one message at a time, in arrival order, each
/// publishing a freshly computed result set.
pub open spec fn finder_run(s: FinderModel, cmds: Seq<FinderCommandModel>) -> (
    FinderModel,
    Seq<Seq<MatchModel>>,
)
    decreases cmds.len(),
{
    if cmds.len() == 0 {
        (s, Seq::empty())
    } else {
        let (s1, out1) = finder_step(s, cmds[0]);
        let (s2, out2) = finder_run(s1, cmds.drop_first());
        (s2, seq![out1] + out2)
    }
}

/// The search coordinator: owns the current corpus snapshot and the
/// current query, and recomputes the published results on every message.
pub struct Finder {
    buffer: Vec<String>,
    query: Option<String>,
}

impl DeepView for Finder {
    type V = FinderModel;

    closed spec fn deep_view(&self) -> FinderModel {
        FinderModel { buffer: self.buffer.deep_view(), query: self.query.deep_view() }
    }
}

impl Finder {
    pub fn new() -> (f: Finder)
        ensures
            f.deep_view() == (FinderModel {
                buffer: Seq::<Seq<char>>::empty(),
                query: None::<Seq<char>>,
            }),
    {
        let f = Finder { buffer: Vec::new(), query: None };
        proof {
            assert(f.deep_view().buffer =~= Seq::<Seq<char>>::empty());
        }
        f
    }

    /// Rerun the matcher over the snapshot and query held now.
    pub fn compute_matches(&self, matcher: &Matcher) -> (results: Vec<MatchResult>)
        ensures
            results.deep_view() == run_spec(
                self.deep_view().buffer,
                self.deep_view().query,
                matcher.cap(),
            ),
    {
        matcher.run(&self.buffer, &self.query)
    }

    /// One coordinator step, as `finder_step` states.
    pub fn handle(&mut self, cmd: FinderCommand) -> (results: Vec<MatchResult>)
        ensures
            final(self).deep_view() == finder_step(old(self).deep_view(), cmd.deep_view()).0,
            results.deep_view() == finder_step(old(self).deep_view(), cmd.deep_view()).1,
    {
        let matcher = Matcher::new(RESULT_CAP);
        match cmd {
            FinderCommand::Refresh(data) => {
                self.buffer = data;
            },
            FinderCommand::Query(q) => {
                self.query = Some(q);
            },
        }
        self.compute_matches(&matcher)
    }

    /// The coordinator loop over a sequence of inbound messages: publishes
    /// one freshly computed result set per message, as `finder_run` states.
    pub fn run(&mut self, cmds: Vec<FinderCommand>) -> (published: Vec<Vec<MatchResult>>)
        ensures
            final(self).deep_view() == finder_run(old(self).deep_view(), cmds.deep_view()).0,
            published.deep_view() == finder_run(old(self).deep_view(), cmds.deep_view()).1,
    {
        let ghost s0 = old(self).deep_view();
        let ghost c0 = cmds.deep_view();
        let mut rest = cmds;
        let mut published: Vec<Vec<MatchResult>> = Vec::new();
        proof {
            assert(published.deep_view() =~= Seq::<Seq<MatchModel>>::empty());
        }
        while rest.len() > 0
            invariant
                finder_run(s0, c0).1 == published.deep_view() + finder_run(
                    self.deep_view(),
                    rest.deep_view(),
                ).1,
                finder_run(s0, c0).0 == finder_run(self.deep_view(), rest.deep_view()).0,
            decreases rest.len(),
        {
            let ghost pre = self.deep_view();
            let ghost pre_cmds = rest.deep_view();
            let ghost pre_pub = published.deep_view();
            let cmd = rest.remove(0);
            proof {
                assert(rest.deep_view() =~= pre_cmds.drop_first());
                assert(cmd.deep_view() == pre_cmds[0]);
            }
            let results = self.handle(cmd);
            published.push(results);
            proof {
                let (s1, out1) = finder_step(pre, pre_cmds[0]);
                assert(published.deep_view() =~= pre_pub + seq![out1]);
                assert(finder_run(pre, pre_cmds).1 == seq![out1] + finder_run(
                    s1,
                    pre_cmds.drop_first(),
                ).1);
                assert(pre_pub + (seq![out1] + finder_run(s1, pre_cmds.drop_first()).1) =~= (
                pre_pub + seq![out1]) + finder_run(s1, pre_cmds.drop_first()).1);
            }
        }
        proof {
            assert(rest.deep_view().len() == 0);
            assert(finder_run(self.deep_view(), rest.deep_view()).1 =~= Seq::<
                Seq<MatchModel>,
            >::empty());
            assert(published.deep_view() + Seq::<Seq<MatchModel>>::empty() =~= published.deep_view());
        }
        published
    }
}

/// Last processed message wins: a refresh, then a query edit, then another
/// refresh publish three result sets, and the third is computed over the
/// second snapshot and the edited query — never a stale mix.
pub proof fn lemma_finder_last_wins(
    s: FinderModel,
    a: Seq<Seq<char>>,
    q: Seq<char>,
    b: Seq<Seq<char>>,
)
    ensures
        ({
            let cmds = seq![
                FinderCommandModel::Refresh(a),
                FinderCommandModel::Query(q),
                FinderCommandModel::Refresh(b),
            ];
            finder_run(s, cmds).1 == seq![
                run_spec(a, s.query, RESULT_CAP as int),
                run_spec(a, Some(q), RESULT_CAP as int),
                run_spec(b, Some(q), RESULT_CAP as int),
            ]
        }),
{
    let cmds = seq![
        FinderCommandModel::Refresh(a),
        FinderCommandModel::Query(q),
        FinderCommandModel::Refresh(b),
    ];
    let s1 = FinderModel { buffer: a, query: s.query };
    let s2 = FinderModel { buffer: a, query: Some(q) };
    let s3 = FinderModel { buffer: b, query: Some(q) };
    let rest1 = cmds.drop_first();
    let rest2 = rest1.drop_first();
    let rest3 = rest2.drop_first();
    assert(cmds[0] == FinderCommandModel::Refresh(a));
    assert(rest1[0] == FinderCommandModel::Query(q));
    assert(rest2[0] == FinderCommandModel::Refresh(b));
    assert(rest3 =~= Seq::<FinderCommandModel>::empty());
    assert(finder_run(s3, rest3).1 =~= Seq::<Seq<MatchModel>>::empty());
    assert(finder_run(s2, rest2).1 == seq![run_spec(b, Some(q), RESULT_CAP as int)] + Seq::<
        Seq<MatchModel>,
    >::empty());
    assert(finder_run(s1, rest1).1 == seq![run_spec(a, Some(q), RESULT_CAP as int)] + finder_run(
        s2,
        rest2,
    ).1);
    assert(finder_run(s, cmds).1 == seq![run_spec(a, s.query, RESULT_CAP as int)] + finder_run(
        s1,
        rest1,
    ).1);
    assert(finder_run(s, cmds).1 =~= seq![
        run_spec(a, s.query, RESULT_CAP as int),
        run_spec(a, Some(q), RESULT_CAP as int),
        run_spec(b, Some(q), RESULT_CAP as int),
    ]);
}

} // verus!
