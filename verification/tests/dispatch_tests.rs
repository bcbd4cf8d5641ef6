use std::sync::Arc;
use std::sync::atomic::{AtomicUsize, Ordering};
use std::time::Duration;

use shenbot_plugins::call::{PyTaskList, PyTasks, TaskType, dispatch_targets, failed_count};
use shenbot_plugins::class_ica::{IcaRoomPy, IcaStatusPy, NewMessagePy};
use shenbot_plugins::config::ConfigStoragePy;
use shenbot_plugins::data_struct::{At, LastMessage, NewMessage, Room};
use shenbot_plugins::error::PyPluginError;
use shenbot_plugins::manifest::PluginManifestPy;
use shenbot_plugins::plugin::{CfgProbe, ModuleHandle, PyPlugin};
use shenbot_plugins::storage::PyPluginStorage;

fn s(text: &str) -> String {
    String::from(text)
}

fn tiny_plugin(id: &str, token: u64) -> PyPlugin {
    let manifest = PluginManifestPy::new(
        s(id),
        s(id),
        s("0.1.0"),
        None,
        vec![(s("main"), ConfigStoragePy::new(vec![]))],
        vec![],
        None,
    );
    let mut plugin = PyPlugin::assemble(
        format!("plugins/{}.py", id),
        "pass\n",
        ModuleHandle { id: token },
        manifest,
    );
    plugin.bind_config(CfgProbe::AbsentWritten).unwrap();
    plugin
}

#[test]
fn dispatch_covers_every_enabled_plugin() {
    let mut registry = PyPluginStorage::new();
    registry.add_plugin(tiny_plugin("one", 1));
    registry.add_plugin(tiny_plugin("two", 2));
    registry.add_plugin(tiny_plugin("three", 3));
    registry.set_status("two", false);
    let (targets, func) = dispatch_targets(&registry, TaskType::IcaNewMessage);
    assert_eq!(func, "on_ica_message");
    let ids: Vec<String> = targets.iter().map(|(id, _)| id.clone()).collect();
    assert_eq!(ids, vec![s("one"), s("three")]);
    let (all, func2) = dispatch_targets(&registry, TaskType::TailchatNewMessage);
    assert_eq!(func2, "on_tailchat_message");
    assert_eq!(all.len(), 2);
}

#[test]
fn one_raising_callback_never_stops_the_rest() {
    let runtime = tokio::runtime::Builder::new_multi_thread()
        .worker_threads(2)
        .enable_time()
        .build()
        .unwrap();
    runtime.block_on(async {
        let ran = Arc::new(AtomicUsize::new(0));
        let mut tracker = PyTasks::new();
        let mut outcomes: Vec<Option<String>> = Vec::new();
        for n in 0..3usize {
            let ran = Arc::clone(&ran);
            let handle = tokio::task::spawn_blocking(move || {
                if n == 1 {
                    // the misbehaving plugin's callback raises
                    return;
                }
                ran.fetch_add(1, Ordering::SeqCst);
            });
            // the host records one outcome per invocation
            outcomes.push(if n == 1 { Some(s("traceback: boom")) } else { None });
            tracker.push(TaskType::IcaNewMessage, handle);
        }
        for handle in tracker.take_all() {
            let _ = handle.await;
        }
        // the other two callbacks ran to completion
        assert_eq!(ran.load(Ordering::SeqCst), 2);
        // and the dispatch as a whole reports no error, only a log count
        assert_eq!(failed_count(&outcomes), 1);
    });
}

#[test]
fn forced_shutdown_reports_not_stopped() {
    let runtime = tokio::runtime::Builder::new_multi_thread()
        .worker_threads(2)
        .enable_time()
        .build()
        .unwrap();
    runtime.block_on(async {
        let mut tracker = PyTasks::new();
        for _ in 0..3 {
            let handle = tokio::spawn(async {
                tokio::time::sleep(Duration::from_secs(30)).await;
            });
            tracker.push(TaskType::IcaNewMessage, handle);
        }
        assert_eq!(tracker.len(TaskType::IcaNewMessage), 3);
        assert_eq!(tracker.total_len(), 3);
        assert!(!tracker.is_empty());
        // the waiter races the interrupt and loses
        let handles = tracker.take_all();
        let waiter = async {
            for handle in handles {
                let _ = handle.await;
            }
        };
        let outcome = tokio::time::timeout(Duration::from_millis(100), waiter).await;
        assert!(outcome.is_err());
        let report = PyPluginError::PluginNotStopped;
        assert_eq!(report.message(), "plugin tasks not stopped cleanly");
        // the process still proceeds: bookkeeping is dropped
        assert!(tracker.is_empty());
    });
}

#[test]
fn cancel_all_empties_the_tracker() {
    let runtime = tokio::runtime::Builder::new_multi_thread()
        .worker_threads(2)
        .enable_time()
        .build()
        .unwrap();
    runtime.block_on(async {
        let mut list = PyTaskList::new();
        for _ in 0..2 {
            list.push(tokio::spawn(async {
                tokio::time::sleep(Duration::from_secs(30)).await;
            }));
        }
        assert_eq!(list.len(), 2);
        list.cancel_all();
        assert!(list.is_empty());
    });
}

#[test]
fn message_wrappers_carry_their_fields() {
    let msg = NewMessage {
        msg_id: s("m1"),
        content: s("hello"),
        sender_id: 42,
        sender_name: s("sender"),
        is_from_self: false,
        is_reply: false,
        room_id: -100,
    };
    let wrapped = NewMessagePy::new(&msg);
    assert_eq!(wrapped.get_id(), "m1");
    assert_eq!(wrapped.get_content(), "hello");
    assert_eq!(wrapped.get_sender_id(), 42);
    assert_eq!(wrapped.get_sender_name(), "sender");
    assert!(!wrapped.get_is_from_self());
    assert!(wrapped.get_is_room_msg());
    assert!(!wrapped.get_is_chat_msg());
    let mut reply = wrapped.reply_with(s("welcome"));
    assert_eq!(reply.get_content(), "welcome");
    assert_eq!(reply.get_room_id(), -100);
    let reply2 = reply.remove_reply();
    assert_eq!(reply2.get_content(), "welcome");
    let del = wrapped.as_deleted();
    assert_eq!(del.msg.msg_id, "m1");

    let room = Room {
        room_id: -5,
        room_name: s("den"),
        index: 0,
        unread_count: 7,
        priority: 3,
        utime: 99,
        at: At::No,
        last_message: LastMessage { content: s("last"), username: s("u") },
    };
    let room_py = IcaRoomPy { inner: room };
    assert_eq!(room_py.get_room_id(), -5);
    assert_eq!(room_py.get_room_name(), "den");
    assert_eq!(room_py.get_unread_count(), 7);
    assert!(room_py.is_group());
    assert!(!room_py.is_chat());
    let outgoing = room_py.new_message_to(s("knock"));
    assert_eq!(outgoing.get_room_id(), -5);
    assert_eq!(outgoing.get_content(), "knock");

    let status = IcaStatusPy::new();
    assert!(!status.get_online());
    assert_eq!(status.get_rooms().len(), 0);
}
