//! What keys do on the interactive screen.
//!
//! Actions that change the cluster pass two gates: the configuration has to
//! allow them, and every single one has to be confirmed with `y`.

use crate::health::{HealthView, TopicHealth};
use crate::kube::{KubeReport, PodLogs, PodSummary};
use crate::text::{cat4, cat5, copy_of, same};
use crate::view::{
    cycled, drilled_in, drilled_out, focus_toggled, node_opened, pod_opened, row_above, row_below, ActionView,
    KubeFocus, PendingAction, StateView, View, ViewState,
};
use vstd::prelude::*;
use vstd::view::View as _;

verus! {

/// A key.
#[derive(Debug, Clone, Copy, PartialEq, Eq, Structural)]
pub enum Key {
    /// A character, alone or with control.
    Char { c: char, ctrl: bool },
    Up,
    Down,
    PageUp,
    PageDown,
    Tab,
    Enter,
    Esc,
    Other,
}

/// What the caller has to do after a key.
#[derive(Debug)]
pub enum Response {
    Nothing,
    Quit,
    Refresh,
    /// Perform the action, which has been confirmed.
    Run(PendingAction),
}

/// What the caller has to do, as a model.
#[verifier::ext_equal]
pub enum ResponseView {
    Nothing,
    Quit,
    Refresh,
    Run(ActionView),
}

impl DeepView for Response {
    type V = ResponseView;

    open spec fn deep_view(&self) -> ResponseView {
        match self {
            Response::Nothing => ResponseView::Nothing,
            Response::Quit => ResponseView::Quit,
            Response::Refresh => ResponseView::Refresh,
            Response::Run(a) => ResponseView::Run(a.deep_view()),
        }
    }
}

/// What is on the screen, as far as keys depend on it.
#[derive(Debug)]
pub struct KeyFacts {
    /// The names of the pods, in the order of their rows.
    pub pods: Vec<String>,
    /// The nodes that they run on.
    pub pod_nodes: Vec<Option<String>>,
    /// The names of the nodes, in the order of their rows.
    pub nodes: Vec<String>,
    /// How many log lines of the pod in detail there are.
    pub log_len: usize,
    pub namespace: String,
    pub selector: String,
    /// The configuration allows actions that change the cluster.
    pub allow_actions: bool,
}

/// What is on the screen, as a model.
#[verifier::ext_equal]
pub struct FactsView {
    pub topics: Seq<HealthView>,
    pub pods: Seq<Seq<char>>,
    pub pod_nodes: Seq<Option<Seq<char>>>,
    pub nodes: Seq<Seq<char>>,
    pub log_len: int,
    pub namespace: Seq<char>,
    pub selector: Seq<char>,
    pub allow_actions: bool,
}

/// What is on the screen.
pub open spec fn facts_view(f: KeyFacts, topics: Seq<HealthView>) -> FactsView {
    FactsView {
        topics,
        pods: f.pods.deep_view(),
        pod_nodes: f.pod_nodes.deep_view(),
        nodes: f.nodes.deep_view(),
        log_len: f.log_len as int,
        namespace: f.namespace@,
        selector: f.selector@,
        allow_actions: f.allow_actions,
    }
}

/// The row of the first pod of that name.
pub open spec fn row_of(pods: Seq<Seq<char>>, name: Seq<char>) -> Option<int>
    decreases pods.len(),
{
    if pods.len() == 0 {
        None
    } else if pods[0] == name {
        Some(0)
    } else {
        match row_of(pods.drop_first(), name) {
            Some(i) => Some(i + 1),
            None => None,
        }
    }
}

/// The pod that an action is about: the one in detail, or the one under the
/// cursor.
pub open spec fn target_pod(s: StateView, f: FactsView) -> Option<Seq<char>> {
    if s.view == View::PodDetail {
        s.selected_pod
    } else if s.view == View::Kube && s.kube_focus == KubeFocus::Pods && 0 <= s.cursor
        < f.pods.len() {
        Some(f.pods[s.cursor])
    } else {
        None
    }
}

/// The node that the pod runs on.
pub open spec fn node_of(f: FactsView, pod: Seq<char>) -> Option<Seq<char>> {
    match row_of(f.pods, pod) {
        Some(i) => if i < f.pod_nodes.len() {
            f.pod_nodes[i]
        } else {
            None
        },
        None => None,
    }
}

/// The action that a key asks for.
pub open spec fn requested(s: StateView, c: char, f: FactsView) -> Option<ActionView> {
    if !f.allow_actions || !(s.view == View::Kube || s.view == View::PodDetail) {
        None
    } else if c == 'd' {
        match target_pod(s, f) {
            Some(pod) => Some(ActionView::DeletePod { namespace: f.namespace, pod }),
            None => None,
        }
    } else if c == 'R' {
        Some(ActionView::RecycleAll { namespace: f.namespace, selector: f.selector })
    } else if c == 'D' {
        match target_pod(s, f) {
            Some(pod) => match node_of(f, pod) {
                Some(node) => Some(ActionView::CordonDrainNode { node }),
                None => None,
            },
            None => None,
        }
    } else {
        None
    }
}

/// How many rows the cursor can move over.
pub open spec fn row_count(s: StateView, f: FactsView) -> int {
    if s.view == View::Kube {
        match s.kube_focus {
            KubeFocus::Pods => f.pods.len() as int,
            KubeFocus::Nodes => f.nodes.len() as int,
        }
    } else {
        f.topics.len() as int
    }
}

/// The state with the metrics scrolled up.
pub open spec fn scrolled_up(s: StateView, n: int) -> StateView {
    StateView {
        metrics_scroll: if s.metrics_scroll >= n {
            s.metrics_scroll - n
        } else {
            0
        },
        ..s
    }
}

/// The state with the metrics scrolled down.
pub open spec fn scrolled_down(s: StateView, n: int) -> StateView {
    StateView {
        metrics_scroll: if s.metrics_scroll + n <= u16::MAX {
            s.metrics_scroll + n
        } else {
            u16::MAX as int
        },
        ..s
    }
}

/// One row up.
pub open spec fn moved_up(s: StateView) -> StateView {
    if s.view == View::PodDetail {
        StateView { log_cursor: row_above(s.log_cursor), ..s }
    } else if s.view == View::Metrics {
        scrolled_up(s, 1)
    } else {
        StateView { cursor: row_above(s.cursor), ..s }
    }
}

/// One row down.
pub open spec fn moved_down(s: StateView, f: FactsView) -> StateView {
    if s.view == View::PodDetail {
        StateView { log_cursor: row_below(s.log_cursor, f.log_len), ..s }
    } else if s.view == View::Metrics {
        scrolled_down(s, 1)
    } else {
        StateView { cursor: row_below(s.cursor, row_count(s, f)), ..s }
    }
}

/// What is under the cursor is opened.
pub open spec fn entered(s: StateView, f: FactsView) -> StateView {
    match s.view {
        View::Kube => match s.kube_focus {
            KubeFocus::Pods => pod_opened(s, f.pods),
            KubeFocus::Nodes => node_opened(s, f.nodes),
        },
        View::PodDetail => StateView { log_expanded: true, ..s },
        View::NodeDetail | View::Metrics | View::Stability => s,
        _ => drilled_in(s, f.topics),
    }
}

/// A log line that is shown in full is closed first, then the view is left.
pub open spec fn escaped(s: StateView) -> StateView {
    if s.view == View::PodDetail && s.log_expanded {
        StateView { log_expanded: false, ..s }
    } else {
        drilled_out(s)
    }
}

/// The state and the response after a character.
pub open spec fn after_char(s: StateView, c: char, ctrl: bool, f: FactsView) -> (
    StateView,
    ResponseView,
) {
    if c == 'q' || (c == 'c' && ctrl) {
        (s, ResponseView::Quit)
    } else if c == '?' {
        (StateView { show_help: !s.show_help, ..s }, ResponseView::Nothing)
    } else if c == 'v' {
        (cycled(s), ResponseView::Nothing)
    } else if c == 'r' {
        (s, ResponseView::Refresh)
    } else if c == 'k' {
        (moved_up(s), ResponseView::Nothing)
    } else if c == 'j' {
        (moved_down(s, f), ResponseView::Nothing)
    } else if c == 'w' && s.view == View::PodDetail {
        (StateView { log_wrap: !s.log_wrap, ..s }, ResponseView::Nothing)
    } else if c == 'm' && s.view == View::PodDetail {
        (StateView { pod_detail_metrics: !s.pod_detail_metrics, ..s }, ResponseView::Nothing)
    } else {
        match requested(s, c, f) {
            Some(a) => (StateView { pending: Some(a), ..s }, ResponseView::Nothing),
            None => (s, ResponseView::Nothing),
        }
    }
}

/// The state and the response after a key. While an action waits, `y` lets it
/// run, and every other key calls it off.
pub open spec fn after_key(s: StateView, key: Key, f: FactsView) -> (StateView, ResponseView) {
    match s.pending {
        Some(a) => (
            StateView { pending: None, ..s },
            if key == (Key::Char { c: 'y', ctrl: false }) {
                ResponseView::Run(a)
            } else {
                ResponseView::Nothing
            },
        ),
        None => match key {
            Key::Char { c, ctrl } => after_char(s, c, ctrl, f),
            Key::Up => (moved_up(s), ResponseView::Nothing),
            Key::Down => (moved_down(s, f), ResponseView::Nothing),
            Key::PageUp => (
                if s.view == View::Metrics {
                    scrolled_up(s, 10)
                } else {
                    s
                },
                ResponseView::Nothing,
            ),
            Key::PageDown => (
                if s.view == View::Metrics {
                    scrolled_down(s, 10)
                } else {
                    s
                },
                ResponseView::Nothing,
            ),
            Key::Tab => (
                if s.view == View::Kube {
                    focus_toggled(s)
                } else {
                    s
                },
                ResponseView::Nothing,
            ),
            Key::Enter => (entered(s, f), ResponseView::Nothing),
            Key::Esc => (escaped(s), ResponseView::Nothing),
            Key::Other => (s, ResponseView::Nothing),
        },
    }
}

/// The pod that an action is about.
fn find_target(state: &ViewState, facts: &KeyFacts) -> (r: Option<String>)
    ensures
        forall|topics: Seq<HealthView>|
            r.deep_view() == #[trigger] target_pod(state.deep_view(), facts_view(*facts, topics)),
{
    if state.view == View::PodDetail {
        match &state.selected_pod {
            Some(p) => Some(copy_of(p.as_str())),
            None => None,
        }
    } else if state.view == View::Kube && state.kube_focus == KubeFocus::Pods && state.cursor
        < facts.pods.len() {
        Some(copy_of(facts.pods[state.cursor].as_str()))
    } else {
        None
    }
}

/// The node that the pod runs on.
fn find_node(facts: &KeyFacts, pod: &str) -> (r: Option<String>)
    ensures
        forall|topics: Seq<HealthView>|
            r.deep_view() == #[trigger] node_of(facts_view(*facts, topics), pod@),
{
    let ghost all = facts.pods.deep_view();
    assert(all.skip(0) =~= all);
    for i in 0..facts.pods.len()
        invariant
            all == facts.pods.deep_view(),
            row_of(all, pod@) == (match row_of(all.skip(i as int), pod@) {
                Some(k) => Some(k + i),
                None => None,
            }),
    {
        assert(all.skip(i as int)[0] == facts.pods@[i as int]@);
        assert(all.skip(i as int).drop_first() =~= all.skip(i + 1));
        if same(facts.pods[i].as_str(), pod) {
            assert(row_of(all, pod@) == Some(i as int));
            if i < facts.pod_nodes.len() {
                assert(facts.pod_nodes.deep_view()[i as int] == facts.pod_nodes@[i as int].deep_view());
                return match &facts.pod_nodes[i] {
                    Some(n) => Some(copy_of(n.as_str())),
                    None => None,
                };
            }
            return None;
        }
    }
    assert(all.skip(all.len() as int) =~= Seq::empty());
    None
}

/// The action that a key asks for.
fn find_request(state: &ViewState, c: char, facts: &KeyFacts) -> (r: Option<PendingAction>)
    ensures
        forall|topics: Seq<HealthView>|
            r.deep_view() == #[trigger] requested(
                state.deep_view(),
                c,
                facts_view(*facts, topics),
            ),
{
    if !facts.allow_actions || !(state.view == View::Kube || state.view == View::PodDetail) {
        return None;
    }
    let target = find_target(state, facts);
    let ghost seen = target.deep_view();
    assert(forall|topics: Seq<HealthView>|
        seen == #[trigger] target_pod(state.deep_view(), facts_view(*facts, topics)));
    if c == 'd' {
        match target {
            Some(pod) => Some(
                PendingAction::DeletePod { namespace: copy_of(facts.namespace.as_str()), pod },
            ),
            None => None,
        }
    } else if c == 'R' {
        Some(
            PendingAction::RecycleAll {
                namespace: copy_of(facts.namespace.as_str()),
                selector: copy_of(facts.selector.as_str()),
            },
        )
    } else if c == 'D' {
        match target {
            Some(pod) => match find_node(facts, pod.as_str()) {
                Some(node) => Some(PendingAction::CordonDrainNode { node }),
                None => None,
            },
            None => None,
        }
    } else {
        None
    }
}

/// How many rows the cursor can move over.
fn rows(state: &ViewState, facts: &KeyFacts, topics: &Vec<TopicHealth>) -> (r: usize)
    ensures
        r == row_count(state.deep_view(), facts_view(*facts, topics.deep_view())),
{
    if state.view == View::Kube {
        match state.kube_focus {
            KubeFocus::Pods => facts.pods.len(),
            KubeFocus::Nodes => facts.nodes.len(),
        }
    } else {
        topics.len()
    }
}

/// One row up.
fn move_up(state: &mut ViewState)
    ensures
        final(state).deep_view() == moved_up(old(state).deep_view()),
{
    if state.view == View::PodDetail {
        state.log_cursor_up();
    } else if state.view == View::Metrics {
        state.metrics_scroll_up(1);
    } else {
        state.cursor_up();
    }
}

/// One row down.
fn move_down(state: &mut ViewState, facts: &KeyFacts, topics: &Vec<TopicHealth>)
    ensures
        final(state).deep_view() == moved_down(
            old(state).deep_view(),
            facts_view(*facts, topics.deep_view()),
        ),
{
    if state.view == View::PodDetail {
        state.log_cursor_down(facts.log_len);
    } else if state.view == View::Metrics {
        state.metrics_scroll_down(1);
    } else {
        let n: usize = rows(state, facts, topics);
        state.cursor_down(n);
    }
}

/// Open what is under the cursor.
fn enter(state: &mut ViewState, facts: &KeyFacts, topics: &Vec<TopicHealth>)
    ensures
        final(state).deep_view() == entered(
            old(state).deep_view(),
            facts_view(*facts, topics.deep_view()),
        ),
{
    match state.view {
        View::Kube => state.kube_drill_in(&facts.pods, &facts.nodes),
        View::PodDetail => state.log_expand(),
        View::NodeDetail => {},
        View::Metrics => {},
        View::Stability => {},
        _ => state.drill_in(topics),
    }
}

/// What a character does where no action waits.
fn press_char(
    state: &mut ViewState,
    c: char,
    ctrl: bool,
    facts: &KeyFacts,
    topics: &Vec<TopicHealth>,
) -> (r: Response)
    requires
        old(state).pending is None,
    ensures
        (final(state).deep_view(), r.deep_view()) == after_char(
            old(state).deep_view(),
            c,
            ctrl,
            facts_view(*facts, topics.deep_view()),
        ),
{
    let ghost f = facts_view(*facts, topics.deep_view());
    let ghost before = state.deep_view();
    if c == 'q' || (c == 'c' && ctrl) {
        return Response::Quit;
    }
    if c == 'r' {
        return Response::Refresh;
    }
    if c == '?' {
        state.toggle_help();
    } else if c == 'v' {
        state.cycle_view();
    } else if c == 'k' {
        move_up(state);
    } else if c == 'j' {
        move_down(state, facts, topics);
    } else if c == 'w' && state.view == View::PodDetail {
        state.toggle_log_wrap();
    } else if c == 'm' && state.view == View::PodDetail {
        state.toggle_pod_metrics();
    } else {
        let asked = find_request(state, c, facts);
        assert(asked.deep_view() == requested(before, c, f));
        if asked.is_some() {
            state.pending = asked;
        }
    }
    Response::Nothing
}

/// What a key does: the state changes, and the caller may have something to do.
pub fn handle_key(
    state: &mut ViewState,
    key: Key,
    facts: &KeyFacts,
    topics: &Vec<TopicHealth>,
) -> (r: Response)
    ensures
        (final(state).deep_view(), r.deep_view()) == after_key(
            old(state).deep_view(),
            key,
            facts_view(*facts, topics.deep_view()),
        ),
{
    let waiting = state.pending.take();
    if let Some(action) = waiting {
        if key == (Key::Char { c: 'y', ctrl: false }) {
            return Response::Run(action);
        }
        return Response::Nothing;
    }
    match key {
        Key::Char { c, ctrl } => return press_char(state, c, ctrl, facts, topics),
        Key::Up => move_up(state),
        Key::Down => move_down(state, facts, topics),
        Key::PageUp => {
            if state.view == View::Metrics {
                state.metrics_scroll_up(10);
            }
        },
        Key::PageDown => {
            if state.view == View::Metrics {
                state.metrics_scroll_down(10);
            }
        },
        Key::Tab => {
            if state.view == View::Kube {
                state.toggle_kube_focus();
            }
        },
        Key::Enter => enter(state, facts, topics),
        Key::Esc => {
            if state.view == View::PodDetail && state.log_expanded {
                state.log_expanded = false;
            } else {
                state.drill_out();
            }
        },
        Key::Other => {},
    }
    Response::Nothing
}

// ── What is on the screen ────────────────────────────────────────────────────

/// The names of the pods.
pub open spec fn pod_names(pods: Seq<PodSummary>) -> Seq<Seq<char>> {
    Seq::new(pods.len(), |i: int| pods[i].name@)
}

/// The nodes that the pods run on.
pub open spec fn nodes_of(pods: Seq<PodSummary>) -> Seq<Option<Seq<char>>> {
    Seq::new(pods.len(), |i: int| pods[i].node.deep_view())
}

/// How many log lines of the pod there are.
pub open spec fn log_count(logs: Seq<PodLogs>, pod: Seq<char>) -> int
    decreases logs.len(),
{
    if logs.len() == 0 {
        0
    } else if logs[0].pod@ == pod {
        logs[0].lines@.len() as int
    } else {
        log_count(logs.drop_first(), pod)
    }
}

/// What is on the screen.
pub open spec fn on_screen(
    f: FactsView,
    s: StateView,
    kube: Option<KubeReport>,
    selector: Seq<char>,
    allow: bool,
) -> bool {
    &&& f.selector == selector
    &&& f.allow_actions == allow
    &&& match kube {
        None => f.pods.len() == 0 && f.pod_nodes.len() == 0 && f.nodes.len() == 0 && f.log_len
            == 0 && f.namespace == ""@,
        Some(report) => {
            &&& f.pods == pod_names(report.pods@)
            &&& f.pod_nodes == nodes_of(report.pods@)
            &&& f.nodes == Seq::new(report.nodes@.len(), |i: int| report.nodes@[i].name@)
            &&& f.namespace == report.namespace@
            &&& f.log_len == (if s.view == View::PodDetail && s.selected_pod is Some {
                log_count(report.pod_logs@, s.selected_pod->0)
            } else {
                0
            })
        },
    }
}

/// How many log lines of the pod there are.
fn count_logs(logs: &Vec<PodLogs>, pod: &str) -> (r: usize)
    ensures
        r == log_count(logs@, pod@),
{
    assert(logs@.skip(0) =~= logs@);
    for i in 0..logs.len()
        invariant
            log_count(logs@, pod@) == log_count(logs@.skip(i as int), pod@),
    {
        assert(logs@.skip(i as int)[0] == logs@[i as int]);
        assert(logs@.skip(i as int).drop_first() =~= logs@.skip(i + 1));
        if same(logs[i].pod.as_str(), pod) {
            return logs[i].lines.len();
        }
    }
    assert(logs@.skip(logs@.len() as int) =~= Seq::empty());
    0
}

/// What is on the screen, as far as keys depend on it.
pub fn key_facts(state: &ViewState, kube: &Option<KubeReport>, selector: &str, allow_actions: bool) -> (r:
    KeyFacts)
    ensures
        forall|topics: Seq<HealthView>|
            on_screen(
                #[trigger] facts_view(r, topics),
                state.deep_view(),
                *kube,
                selector@,
                allow_actions,
            ),
{
    let mut pods: Vec<String> = Vec::new();
    let mut pod_nodes: Vec<Option<String>> = Vec::new();
    let mut nodes: Vec<String> = Vec::new();
    let mut log_len: usize = 0;
    let mut namespace = copy_of("");
    if let Some(report) = kube {
        namespace = copy_of(report.namespace.as_str());
        for i in 0..report.pods.len()
            invariant
                pods@.len() == i,
                pod_nodes@.len() == i,
                forall|j: int| 0 <= j < i ==> (#[trigger] pods@[j])@ == report.pods@[j].name@,
                forall|j: int|
                    0 <= j < i ==> (#[trigger] pod_nodes@[j]).deep_view()
                        == report.pods@[j].node.deep_view(),
        {
            let p = &report.pods[i];
            pods.push(copy_of(p.name.as_str()));
            pod_nodes.push(
                match &p.node {
                    Some(n) => Some(copy_of(n.as_str())),
                    None => None,
                },
            );
        }
        for i in 0..report.nodes.len()
            invariant
                nodes@.len() == i,
                forall|j: int| 0 <= j < i ==> (#[trigger] nodes@[j])@ == report.nodes@[j].name@,
        {
            nodes.push(copy_of(report.nodes[i].name.as_str()));
        }
        if state.view == View::PodDetail {
            if let Some(pod) = &state.selected_pod {
                log_len = count_logs(&report.pod_logs, pod.as_str());
            }
        }
        assert(pods.deep_view() =~= pod_names(report.pods@));
        assert(pod_nodes.deep_view() =~= nodes_of(report.pods@));
        assert(nodes.deep_view() =~= Seq::new(
            report.nodes@.len(),
            |i: int| report.nodes@[i].name@,
        ));
    }
    KeyFacts {
        pods,
        pod_nodes,
        nodes,
        log_len,
        namespace,
        selector: copy_of(selector),
        allow_actions,
    }
}

/// The question that is asked before an action runs: it names the target.
pub open spec fn question(a: ActionView) -> Seq<char> {
    match a {
        ActionView::DeletePod { namespace, pod } => "delete pod "@ + pod + " in namespace "@
            + namespace + "? y=confirm, any other key cancels"@,
        ActionView::RecycleAll { namespace, selector } => "recycle all pods matching "@ + selector
            + " in namespace "@ + namespace + ", one at a time? y=confirm, any other key cancels"@,
        ActionView::CordonDrainNode { node } => "cordon and drain node "@ + node
            + ", evicting its pods? "@ + "y=confirm, any other key cancels"@,
    }
}

/// The question that is asked before an action runs.
pub fn confirmation(a: &PendingAction) -> (r: String)
    ensures
        r@ == question(a.deep_view()),
{
    match a {
        PendingAction::DeletePod { namespace, pod } => cat5(
            "delete pod ",
            pod.as_str(),
            " in namespace ",
            namespace.as_str(),
            "? y=confirm, any other key cancels",
        ),
        PendingAction::RecycleAll { namespace, selector } => cat5(
            "recycle all pods matching ",
            selector.as_str(),
            " in namespace ",
            namespace.as_str(),
            ", one at a time? y=confirm, any other key cancels",
        ),
        PendingAction::CordonDrainNode { node } => cat4(
            "cordon and drain node ",
            node.as_str(),
            ", evicting its pods? ",
            "y=confirm, any other key cancels",
        ),
    }
}

// ── Laws ─────────────────────────────────────────────────────────────────────

/// The first gate: where the configuration does not allow actions, no key asks
/// for one, and none runs.
pub proof fn lemma_config_gate(s: StateView, key: Key, f: FactsView)
    requires
        !f.allow_actions,
        s.pending is None,
    ensures
        after_key(s, key, f).0.pending is None,
        !(after_key(s, key, f).1 is Run),
{
}

/// The second gate: an action runs only where it was the one that waited, and
/// only on `y`.
pub proof fn lemma_confirmation_gate(s: StateView, key: Key, f: FactsView)
    requires
        after_key(s, key, f).1 is Run,
    ensures
        s.pending == Some(after_key(s, key, f).1->Run_0),
        key == (Key::Char { c: 'y', ctrl: false }),
{
}

/// No single key asks for an action and runs it: whatever key comes after the
/// one that asked, nothing runs but what was asked for.
pub proof fn lemma_two_keys(s: StateView, first: Key, second: Key, f: FactsView, g: FactsView)
    requires
        s.pending is None,
    ensures
        !(after_key(s, first, f).1 is Run),
        ({
            let asked = after_key(s, first, f).0;
            let r = after_key(asked, second, g);
            r.1 is Run ==> asked.pending == Some(r.1->Run_0) && r.0.pending is None
        }),
{
}

/// Any other key calls an action off and does nothing else.
pub proof fn lemma_called_off(s: StateView, key: Key, f: FactsView)
    requires
        s.pending is Some,
        key != (Key::Char { c: 'y', ctrl: false }),
    ensures
        after_key(s, key, f) == (StateView { pending: None, ..s }, ResponseView::Nothing),
{
}

/// Actions are asked for only where pods are shown.
pub proof fn lemma_where_actions_are(s: StateView, key: Key, f: FactsView)
    requires
        s.pending is None,
        after_key(s, key, f).0.pending is Some,
    ensures
        s.view == View::Kube || s.view == View::PodDetail,
{
}

/// `q` and control-c leave the screen, `r` asks for a refresh, and nothing else
/// does; none of them changes what is shown.
pub proof fn lemma_leaving(s: StateView, key: Key, f: FactsView)
    requires
        s.pending is None,
    ensures
        ({
            let (next, response) = after_key(s, key, f);
            let quit = exists|ctrl: bool| key == (#[trigger] char_key('q', ctrl)) || key == char_key(
                'c',
                true,
            );
            let refresh = exists|ctrl: bool| key == (#[trigger] char_key('r', ctrl));
            &&& response is Quit <==> quit
            &&& response is Refresh <==> refresh
            &&& quit || refresh ==> next == s
        }),
{
    match key {
        Key::Char { c, ctrl } => {
            assert(key == char_key(c, ctrl));
            assert(key == char_key('c', true) ==> c == 'c' && ctrl);
        },
        _ => {},
    }
    assert(char_key('q', true) == (Key::Char { c: 'q', ctrl: true }));
}

/// The key of a character.
pub open spec fn char_key(c: char, ctrl: bool) -> Key {
    Key::Char { c, ctrl }
}

/// The letters `j` and `k` do what the arrows do.
pub proof fn lemma_letters_as_arrows(s: StateView, ctrl: bool, f: FactsView)
    ensures
        s.pending is None ==> after_key(s, char_key('j', ctrl), f) == after_key(s, Key::Down, f),
        s.pending is None ==> after_key(s, char_key('k', ctrl), f) == after_key(s, Key::Up, f),
{
}

/// Where the arrows move: over the log lines of a pod, the lines of the metrics,
/// the pods or the nodes, or the topics. The cursor stops at the first row and at
/// the last one.
pub proof fn lemma_arrows(s: StateView, f: FactsView)
    requires
        s.pending is None,
    ensures
        ({
            let down = after_key(s, Key::Down, f);
            let up = after_key(s, Key::Up, f);
            let rows: int = if s.view == View::Kube && s.kube_focus == KubeFocus::Pods {
                f.pods.len() as int
            } else if s.view == View::Kube {
                f.nodes.len() as int
            } else {
                f.topics.len() as int
            };
            &&& down.1 is Nothing && up.1 is Nothing
            &&& s.view == View::PodDetail ==> down.0 == (StateView {
                log_cursor: if s.log_cursor + 1 < f.log_len {
                    s.log_cursor + 1
                } else {
                    s.log_cursor
                },
                ..s
            })
            &&& s.view == View::PodDetail && s.log_cursor > 0 ==> up.0 == (StateView {
                log_cursor: s.log_cursor - 1,
                ..s
            })
            &&& s.view == View::Metrics && s.metrics_scroll < u16::MAX ==> down.0 == (StateView {
                metrics_scroll: s.metrics_scroll + 1,
                ..s
            })
            &&& s.view == View::Metrics && s.metrics_scroll > 0 ==> up.0 == (StateView {
                metrics_scroll: s.metrics_scroll - 1,
                ..s
            })
            &&& s.view != View::PodDetail && s.view != View::Metrics ==> down.0 == (StateView {
                cursor: if s.cursor + 1 < rows {
                    s.cursor + 1
                } else {
                    s.cursor
                },
                ..s
            })
            &&& s.view != View::PodDetail && s.view != View::Metrics && s.cursor > 0 ==> up.0 == (
            StateView { cursor: s.cursor - 1, ..s })
        }),
{
}

/// The metrics scroll by ten lines a page, and a page down and up again leads back.
pub proof fn lemma_pages(s: StateView, f: FactsView)
    requires
        s.pending is None,
        s.view == View::Metrics,
        0 <= s.metrics_scroll,
        s.metrics_scroll + 10 <= u16::MAX,
    ensures
        after_key(s, Key::PageDown, f).0.metrics_scroll == s.metrics_scroll + 10,
        after_key(after_key(s, Key::PageDown, f).0, Key::PageUp, f).0 == s,
        s.metrics_scroll < 10 ==> after_key(s, Key::PageUp, f).0.metrics_scroll == 0,
{
}

/// The action that waits after a key is about the pod in detail or the pod under
/// the cursor, about all pods, or about the node of that pod.
pub proof fn lemma_what_waits(s: StateView, f: FactsView, ctrl: bool)
    requires
        s.pending is None,
        f.allow_actions,
        s.view == View::Kube && s.kube_focus == KubeFocus::Pods && 0 <= s.cursor < f.pods.len()
            && f.pods.len() == f.pod_nodes.len(),
        forall|i: int| 0 <= i < s.cursor ==> #[trigger] f.pods[i] != f.pods[s.cursor],
    ensures
        after_key(s, char_key('d', ctrl), f).0.pending == Some(
            ActionView::DeletePod { namespace: f.namespace, pod: f.pods[s.cursor] },
        ),
        after_key(s, char_key('R', ctrl), f).0.pending == Some(
            ActionView::RecycleAll { namespace: f.namespace, selector: f.selector },
        ),
        f.pod_nodes[s.cursor] matches Some(node) ==> after_key(
            s,
            char_key('D', ctrl),
            f,
        ).0.pending == Some(ActionView::CordonDrainNode { node }),
        f.pod_nodes[s.cursor] is None ==> after_key(s, char_key('D', ctrl), f).0 == s,
{
    lemma_row_found(f.pods, s.cursor);
}

/// In the detail of a pod the actions are about that pod.
pub proof fn lemma_what_waits_in_detail(s: StateView, f: FactsView, ctrl: bool, i: int)
    requires
        s.pending is None,
        f.allow_actions,
        s.view == View::PodDetail,
        0 <= i < f.pods.len(),
        f.pods.len() == f.pod_nodes.len(),
        s.selected_pod == Some(f.pods[i]),
        forall|j: int| 0 <= j < i ==> #[trigger] f.pods[j] != f.pods[i],
    ensures
        after_key(s, char_key('d', ctrl), f).0.pending == Some(
            ActionView::DeletePod { namespace: f.namespace, pod: f.pods[i] },
        ),
        f.pod_nodes[i] matches Some(node) ==> after_key(s, char_key('D', ctrl), f).0.pending
            == Some(ActionView::CordonDrainNode { node }),
{
    lemma_row_found(f.pods, i);
}

/// The first row of a name is found.
proof fn lemma_row_found(pods: Seq<Seq<char>>, i: int)
    requires
        0 <= i < pods.len(),
        forall|j: int| 0 <= j < i ==> #[trigger] pods[j] != pods[i],
    ensures
        row_of(pods, pods[i]) == Some(i),
    decreases i,
{
    if i > 0 {
        let rest = pods.drop_first();
        assert(pods[0] != pods[i]);
        assert(rest[i - 1] == pods[i]);
        assert forall|j: int| 0 <= j < i - 1 implies #[trigger] rest[j] != rest[i - 1] by {
            assert(rest[j] == pods[j + 1]);
        }
        lemma_row_found(rest, i - 1);
    }
}

/// `y` runs what waits, and nothing waits any more.
pub proof fn lemma_confirmed(s: StateView, a: ActionView, f: FactsView)
    requires
        s.pending == Some(a),
    ensures
        after_key(s, char_key('y', false), f) == (
            StateView { pending: None, ..s },
            ResponseView::Run(a),
        ),
{
}

/// What the other keys do where nothing waits.
pub proof fn lemma_other_keys(s: StateView, f: FactsView, ctrl: bool)
    requires
        s.pending is None,
    ensures
        after_key(s, char_key('?', ctrl), f).0 == (StateView { show_help: !s.show_help, ..s }),
        after_key(s, char_key('v', ctrl), f).0.view != s.view,
        after_key(s, char_key('v', ctrl), f).0.cursor == 0,
        s.view == View::PodDetail ==> after_key(s, char_key('w', ctrl), f).0 == (StateView {
            log_wrap: !s.log_wrap,
            ..s
        }),
        s.view == View::PodDetail ==> after_key(s, char_key('m', ctrl), f).0 == (StateView {
            pod_detail_metrics: !s.pod_detail_metrics,
            ..s
        }),
        s.view != View::PodDetail ==> after_key(s, char_key('w', ctrl), f).0 == s && after_key(
            s,
            char_key('m', ctrl),
            f,
        ).0 == s,
        s.view == View::Kube ==> after_key(s, Key::Tab, f).0.kube_focus != s.kube_focus,
        s.view != View::Kube ==> after_key(s, Key::Tab, f).0 == s,
        s.view != View::Metrics ==> after_key(s, Key::PageUp, f).0 == s && after_key(
            s,
            Key::PageDown,
            f,
        ).0 == s,
        s.view == View::PodDetail && s.log_expanded ==> after_key(s, Key::Esc, f).0 == (StateView {
            log_expanded: false,
            ..s
        }),
        s.view == View::PodDetail && !s.log_expanded ==> after_key(s, Key::Esc, f).0.view
            == View::Kube,
        s.view == View::PodDetail ==> after_key(s, Key::Enter, f).0 == (StateView {
            log_expanded: true,
            ..s
        }),
        s.view == View::Metrics || s.view == View::Stability || s.view == View::NodeDetail
            ==> after_key(s, Key::Enter, f).0 == s,
        after_key(s, Key::Other, f) == (s, ResponseView::Nothing),
{
}

/// `Enter` opens the pod, the node or the topic under the cursor.
pub proof fn lemma_enter_opens(s: StateView, f: FactsView)
    requires
        s.pending is None,
        0 <= s.cursor,
    ensures
        ({
            let r = after_key(s, Key::Enter, f).0;
            &&& s.view == View::Kube && s.kube_focus == KubeFocus::Pods && s.cursor < f.pods.len()
                ==> r.view == View::PodDetail && r.selected_pod == Some(f.pods[s.cursor])
            &&& s.view == View::Kube && s.kube_focus == KubeFocus::Nodes && s.cursor
                < f.nodes.len() ==> r.view == View::NodeDetail && r.selected_node == Some(
                f.nodes[s.cursor],
            )
            &&& (s.view == View::Topic || s.view == View::Partition || s.view == View::Combined)
                && s.cursor < f.topics.len() ==> r.view == View::Combined && r.drilled_topic
                == Some(f.topics[s.cursor].topic)
        }),
{
}

/// How many lines of a pod the screen has: those of the first log under its name.
pub proof fn lemma_log_counted(logs: Seq<PodLogs>, i: int)
    requires
        0 <= i < logs.len(),
        forall|j: int| 0 <= j < i ==> (#[trigger] logs[j]).pod@ != logs[i].pod@,
    ensures
        log_count(logs, logs[i].pod@) == logs[i].lines@.len(),
    decreases i,
{
    if i > 0 {
        let rest = logs.drop_first();
        assert(logs[0].pod@ != logs[i].pod@);
        assert(rest[i - 1] == logs[i]);
        assert forall|j: int| 0 <= j < i - 1 implies (#[trigger] rest[j]).pod@ != rest[i
            - 1].pod@ by {
            assert(rest[j] == logs[j + 1]);
        }
        lemma_log_counted(rest, i - 1);
    }
}

/// The rows on the screen are the pods of the report, each with its node.
pub proof fn lemma_rows_on_screen(
    f: FactsView,
    s: StateView,
    report: KubeReport,
    selector: Seq<char>,
    allow: bool,
    i: int,
)
    requires
        on_screen(f, s, Some(report), selector, allow),
        0 <= i < report.pods@.len(),
    ensures
        f.allow_actions == allow,
        f.namespace == report.namespace@,
        f.selector == selector,
        f.pods.len() == report.pods@.len() && f.pods[i] == report.pods@[i].name@,
        f.pod_nodes.len() == report.pods@.len() && f.pod_nodes[i]
            == report.pods@[i].node.deep_view(),
        f.nodes.len() == report.nodes@.len(),
{
}

/// The question names what would be changed.
pub proof fn lemma_question(namespace: Seq<char>, name: Seq<char>)
    ensures
        question(ActionView::DeletePod { namespace, pod: name }) == "delete pod "@ + name
            + " in namespace "@ + namespace + "? y=confirm, any other key cancels"@,
        question(ActionView::RecycleAll { namespace, selector: name })
            == "recycle all pods matching "@ + name + " in namespace "@ + namespace
            + ", one at a time? y=confirm, any other key cancels"@,
        question(ActionView::CordonDrainNode { node: name }) == "cordon and drain node "@ + name
            + ", evicting its pods? "@ + "y=confirm, any other key cancels"@,
{
}

} // verus!
