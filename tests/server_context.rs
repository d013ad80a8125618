use sauron::server_context::{join_strings, Application, Cmd, Measurements, ServerContext};
use sauron::vdom::{element, text, Node};

struct Counter {
    count: i32,
}

impl Application<i32> for Counter {
    fn init(&mut self) -> Vec<Cmd<i32>> {
        vec![Cmd::from_msgs(vec![1]), Cmd::none().no_render()]
    }

    fn update(&mut self, msg: i32) -> Cmd<i32> {
        self.count += msg;
        if msg > 1 {
            Cmd::from_msgs(vec![msg - 1])
        } else {
            Cmd::none().no_render()
        }
    }

    fn view(&self) -> Node {
        element("p", vec![], vec![text(&self.count.to_string())])
    }

    fn style(&self) -> Vec<String> {
        vec!["p{".to_string(), "color:red".to_string(), "}".to_string()]
    }

    fn stylesheet() -> Vec<String> {
        vec!["body{}".to_string(), "main{}".to_string()]
    }

    fn measurements(&self, _m: Measurements) -> Cmd<i32> {
        Cmd::none()
    }
}

#[test]
fn batch_concatenates_and_ors() {
    let c = Cmd::batch(vec![Cmd::from_msgs(vec![1, 2]).no_render(), Cmd::from_msgs(vec![3])]);
    assert_eq!(c.msgs, vec![1, 2, 3]);
    assert!(c.should_update_view);
    let d = Cmd::batch(vec![Cmd::<i32>::none().no_render()]);
    assert!(!d.should_update_view);
    let e = Cmd::<i32>::batch(vec![]);
    assert!(e.msgs.is_empty());
    assert!(!e.should_update_view);
}

#[test]
fn context_dispatches_in_order() {
    let mut ctx = ServerContext::new(Counter { count: 0 });
    assert!(!ctx.has_pending_msgs());
    let init = ctx.init_app();
    assert_eq!(init.msgs, vec![1]);
    assert!(init.should_update_view);
    ctx.push_msgs(vec![2, 5]);
    assert!(ctx.has_pending_msgs());
    assert!(ctx.dispatch_pending_msg());
    assert!(ctx.dispatch_pending_msg());
    assert!(!ctx.dispatch_pending_msg());
    assert_eq!(ctx.app.count, 7);
    let cmd = ctx.batch_pending_cmds();
    assert_eq!(cmd.msgs, vec![1, 4]);
    assert!(cmd.should_update_view);
    assert!(ctx.pending_cmds.is_empty());
}

#[test]
fn context_styles_and_view() {
    let mut ctx = ServerContext::new(Counter { count: 3 });
    assert_eq!(ctx.dynamic_style(), "p{color:red}");
    assert_eq!(ctx.static_style(), "body{}main{}");
    let v = ctx.view();
    ctx.set_current_dom(v);
    let m = Measurements { name: "r".to_string(), node_count: 2, build_view_took_us: 5, total_time_us: 9 };
    assert!(!ctx.measurements(m).should_update_view);
    let c = ctx.update_app(4);
    assert_eq!(c.msgs, vec![3]);
    assert_eq!(ctx.app.count, 7);
}

#[test]
fn join_strings_concatenates() {
    assert_eq!(join_strings(&vec!["a".to_string(), "".to_string(), "bc".to_string()]), "abc");
    assert_eq!(join_strings(&vec![]), "");
}
