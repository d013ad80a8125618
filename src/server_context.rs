//! Bookkeeping for an application rendered on a server: pending messages are handed
//! to the application one by one, in order, and the commands it returns are queued.
use vstd::prelude::*;
use std::collections::VecDeque;
use crate::vdom::Node;

verus! {

/// Timings of one render, in microseconds.
#[derive(Debug)]
pub struct Measurements {
    pub name: String,
    pub node_count: usize,
    pub build_view_took_us: u64,
    pub total_time_us: u64,
}

/// Work for the runtime: messages to feed back into the application, and whether the
/// view must be rendered again afterwards.
#[derive(Debug)]
pub struct Cmd<MSG> {
    pub msgs: Vec<MSG>,
    pub should_update_view: bool,
}

/// The messages of the commands, one command after the other.
pub open spec fn batch_msgs<MSG>(cmds: Seq<Cmd<MSG>>) -> Seq<MSG>
    decreases cmds.len(),
{
    if cmds.len() == 0 {
        Seq::empty()
    } else {
        batch_msgs(cmds.drop_last()) + cmds.last().msgs@
    }
}

/// One of the commands asks for the view to be rendered again.
pub open spec fn any_update<MSG>(cmds: Seq<Cmd<MSG>>) -> bool {
    exists|i: int| 0 <= i < cmds.len() && (#[trigger] cmds[i]).should_update_view
}

impl<MSG> Cmd<MSG> {
    /// A command with nothing to do, after which the view is rendered again.
    pub fn none() -> (r: Self)
        ensures
            r.msgs@.len() == 0,
            r.should_update_view,
    {
        Cmd { msgs: Vec::new(), should_update_view: true }
    }

    /// A command that feeds `msgs` back into the application.
    pub fn from_msgs(msgs: Vec<MSG>) -> (r: Self)
        ensures
            r.msgs@ == msgs@,
            r.should_update_view,
    {
        Cmd { msgs, should_update_view: true }
    }

    /// This command, with no render after it.
    pub fn no_render(self) -> (r: Self)
        ensures
            r.msgs@ == self.msgs@,
            !r.should_update_view,
    {
        Cmd { msgs: self.msgs, should_update_view: false }
    }

    /// The commands as one: their messages in order, and a render if any asks for one.
    pub fn batch(cmds: Vec<Cmd<MSG>>) -> (r: Self)
        ensures
            r.msgs@ == batch_msgs(cmds@),
            r.should_update_view == any_update(cmds@),
    {
        let ghost all = cmds@;
        let mut rest = cmds;
        let mut msgs: Vec<MSG> = Vec::new();
        let mut update = false;
        let mut i: usize = 0;
        let total = rest.len();
        assert(total == all.len());
        while rest.len() > 0
            invariant
                i + rest.len() == all.len(),
                all.len() <= usize::MAX,
                rest@ == all.subrange(i as int, all.len() as int),
                msgs@ == batch_msgs(all.subrange(0, i as int)),
                update == any_update(all.subrange(0, i as int)),
            decreases rest.len(),
        {
            let mut c = rest.remove(0);
            assert(c == all[i as int]);
            let ghost prefix = all.subrange(0, i + 1);
            assert(prefix.drop_last() =~= all.subrange(0, i as int));
            assert(prefix.last() == c);
            let flag = c.should_update_view;
            msgs.append(&mut c.msgs);
            assert(msgs@ == batch_msgs(prefix));
            update = update || flag;
            assert(update == any_update(prefix)) by {
                if flag {
                    assert(prefix[i as int] == all[i as int]);
                } else if any_update(prefix) {
                    let k = choose|k: int| 0 <= k < prefix.len() && (#[trigger] prefix[k]).should_update_view;
                    assert(all.subrange(0, i as int)[k] == prefix[k]);
                }
            }
            i = i + 1;
            assert(rest@ =~= all.subrange(i as int, all.len() as int));
        }
        assert(all.subrange(0, i as int) =~= all);
        Cmd { msgs, should_update_view: update }
    }
}

/// The strings one after the other.
pub open spec fn concat_all(parts: Seq<String>) -> Seq<char>
    decreases parts.len(),
{
    if parts.len() == 0 {
        Seq::empty()
    } else {
        concat_all(parts.drop_last()) + parts.last()@
    }
}

/// Joins the strings with nothing between them.
pub fn join_strings(parts: &Vec<String>) -> (r: String)
    ensures
        r@ == concat_all(parts@),
{
    let mut buf = String::new();
    let mut i: usize = 0;
    assert(parts@.subrange(0, 0) =~= Seq::<String>::empty());
    while i < parts.len()
        invariant
            i <= parts.len(),
            buf@ == concat_all(parts@.subrange(0, i as int)),
        decreases parts.len() - i,
    {
        assert(parts@.subrange(0, i + 1).drop_last() =~= parts@.subrange(0, i as int));
        buf.append(parts[i].as_str());
        i = i + 1;
    }
    assert(parts@.subrange(0, parts.len() as int) =~= parts@);
    buf
}

/// An application: its state, how messages change it, and the view it shows.
pub trait Application<MSG>: Sized {
    /// Commands to run once the application starts.
    fn init(&mut self) -> Vec<Cmd<MSG>>;

    /// Changes the state in response to `msg`.
    fn update(&mut self, msg: MSG) -> Cmd<MSG>;

    /// The view of the current state.
    fn view(&self) -> Node;

    /// Style rules that depend on the state.
    fn style(&self) -> Vec<String>;

    /// Style rules that never change.
    fn stylesheet() -> Vec<String>;

    /// What to do with the timings of a render.
    fn measurements(&self, measurements: Measurements) -> Cmd<MSG>;
}

/// The state of an application rendered on a server: the application, its current
/// view, and the messages and commands still to be handled, in order.
pub struct ServerContext<APP, MSG> {
    pub app: APP,
    pub current_vdom: Node,
    pub pending_msgs: VecDeque<MSG>,
    pub pending_cmds: VecDeque<Cmd<MSG>>,
}

impl<APP: Application<MSG>, MSG> ServerContext<APP, MSG> {
    /// A context for `app`, showing its current view, with nothing pending.
    pub fn new(app: APP) -> (r: Self)
        ensures
            r.app == app,
            r.pending_msgs@.len() == 0,
            r.pending_cmds@.len() == 0,
    {
        let view = app.view();
        ServerContext {
            app,
            current_vdom: view,
            pending_msgs: VecDeque::new(),
            pending_cmds: VecDeque::new(),
        }
    }

    /// Starts the application: its start-up commands, as one.
    pub fn init_app(&mut self) -> (r: Cmd<MSG>)
        ensures
            final(self).current_vdom == old(self).current_vdom,
            final(self).pending_msgs@ == old(self).pending_msgs@,
            final(self).pending_cmds@ == old(self).pending_cmds@,
    {
        let cmds = self.app.init();
        Cmd::batch(cmds)
    }

    /// The view of the application's current state.
    pub fn view(&self) -> Node {
        self.app.view()
    }

    /// The application's state-dependent style rules, joined.
    pub fn dynamic_style(&self) -> String {
        let parts = self.app.style();
        join_strings(&parts)
    }

    /// The application's fixed style rules, joined.
    pub fn static_style(&self) -> String {
        let parts = APP::stylesheet();
        join_strings(&parts)
    }

    /// Records `new_vdom` as the view currently shown.
    pub fn set_current_dom(&mut self, new_vdom: Node)
        ensures
            final(self).current_vdom == new_vdom,
            final(self).app == old(self).app,
            final(self).pending_msgs@ == old(self).pending_msgs@,
            final(self).pending_cmds@ == old(self).pending_cmds@,
    {
        self.current_vdom = new_vdom;
    }

    /// What the application makes of the timings, never followed by a render.
    pub fn measurements(&self, measurements: Measurements) -> (r: Cmd<MSG>)
        ensures
            !r.should_update_view,
    {
        self.app.measurements(measurements).no_render()
    }

    /// Queues `msgs` after those already pending.
    pub fn push_msgs(&mut self, msgs: Vec<MSG>)
        ensures
            final(self).pending_msgs@ == old(self).pending_msgs@ + msgs@,
            final(self).pending_cmds@ == old(self).pending_cmds@,
            final(self).app == old(self).app,
            final(self).current_vdom == old(self).current_vdom,
    {
        let ghost start = self.pending_msgs@;
        let ghost all = msgs@;
        let mut rest = msgs;
        let mut i: usize = 0;
        let total = rest.len();
        assert(total == all.len());
        while rest.len() > 0
            invariant
                i + rest.len() == all.len(),
                all.len() <= usize::MAX,
                rest@ == all.subrange(i as int, all.len() as int),
                self.pending_msgs@ == start + all.subrange(0, i as int),
                self.pending_cmds@ == old(self).pending_cmds@,
                self.app == old(self).app,
                self.current_vdom == old(self).current_vdom,
            decreases rest.len(),
        {
            let m = rest.remove(0);
            assert(m == all[i as int]);
            self.pending_msgs.push_back(m);
            i = i + 1;
            assert(self.pending_msgs@ =~= start + all.subrange(0, i as int));
            assert(rest@ =~= all.subrange(i as int, all.len() as int));
        }
        assert(all.subrange(0, i as int) =~= all);
    }

    /// Hands `msg` to the application.
    pub fn update_app(&mut self, msg: MSG) -> (r: Cmd<MSG>)
        ensures
            final(self).current_vdom == old(self).current_vdom,
            final(self).pending_msgs@ == old(self).pending_msgs@,
            final(self).pending_cmds@ == old(self).pending_cmds@,
    {
        self.app.update(msg)
    }

    /// Whether messages are still pending.
    pub fn has_pending_msgs(&self) -> (r: bool)
        ensures
            r == (self.pending_msgs@.len() > 0),
    {
        self.pending_msgs.len() > 0
    }

    /// Hands the oldest pending message to the application and queues the command it
    /// returns; `false` where no message was pending.
    pub fn dispatch_pending_msg(&mut self) -> (r: bool)
        ensures
            r == (old(self).pending_msgs@.len() > 0),
            r ==> final(self).pending_msgs@ == old(self).pending_msgs@.drop_first(),
            r ==> final(self).pending_cmds@.len() == old(self).pending_cmds@.len() + 1,
            r ==> final(self).pending_cmds@.drop_last() == old(self).pending_cmds@,
            !r ==> final(self).pending_msgs@ == old(self).pending_msgs@,
            !r ==> final(self).pending_cmds@ == old(self).pending_cmds@,
            !r ==> final(self).app == old(self).app,
            final(self).current_vdom == old(self).current_vdom,
    {
        match self.pending_msgs.pop_front() {
            Some(msg) => {
                let cmd = self.update_app(msg);
                let ghost before = self.pending_cmds@;
                self.pending_cmds.push_back(cmd);
                assert(self.pending_cmds@.drop_last() =~= before);
                assert(self.pending_msgs@ =~= old(self).pending_msgs@.drop_first());
                true
            },
            None => false,
        }
    }

    /// Takes every pending command, as one.
    pub fn batch_pending_cmds(&mut self) -> (r: Cmd<MSG>)
        ensures
            final(self).pending_cmds@.len() == 0,
            final(self).pending_msgs@ == old(self).pending_msgs@,
            final(self).app == old(self).app,
            final(self).current_vdom == old(self).current_vdom,
            r.msgs@ == batch_msgs(old(self).pending_cmds@),
            r.should_update_view == any_update(old(self).pending_cmds@),
    {
        let ghost all = self.pending_cmds@;
        let mut cmds: Vec<Cmd<MSG>> = Vec::new();
        while self.pending_cmds.len() > 0
            invariant
                cmds@ + self.pending_cmds@ == all,
                self.pending_msgs@ == old(self).pending_msgs@,
                self.app == old(self).app,
                self.current_vdom == old(self).current_vdom,
            decreases self.pending_cmds@.len(),
        {
            let ghost before = self.pending_cmds@;
            match self.pending_cmds.pop_front() {
                Some(c) => {
                    let ghost cs = cmds@;
                    cmds.push(c);
                    assert(cmds@ + self.pending_cmds@ =~= cs + before);
                },
                None => {},
            }
        }
        assert(cmds@ =~= all);
        Cmd::batch(cmds)
    }
}

} // verus!
