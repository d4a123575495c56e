use prism_runtime::subscriber_list::{Callback, Liveness, SubscriptionManager};

fn shown(cbs: &Vec<Callback>) -> String {
    format!("{:?}", cbs)
}

#[test]
fn consolidating_twice_keeps_what_once_kept() {
    let mut live = Liveness::new();
    let t0 = live.fresh_token();
    let t1 = live.fresh_token();
    let mut list = SubscriptionManager::new(0, 0);
    assert!(list.add_subscriber(&live, Callback::Main { event: 1, tag: 0, token: t0 }));
    assert!(!list.add_subscriber(&live, Callback::Main { event: 2, tag: 0, token: t1 }));
    assert!(!list.add_subscriber(&live, Callback::Hold { behavior: 0 }));
    live.kill_token(t0);
    let once = list.consolidate(&live);
    assert_eq!(
        shown(&once),
        shown(&vec![Callback::Main { event: 2, tag: 0, token: t1 }, Callback::Hold { behavior: 0 }])
    );
    let twice = list.consolidate(&live);
    assert_eq!(shown(&once), shown(&twice));
}
