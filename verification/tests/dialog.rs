use rs_steam_updater::dialog::{
    countdown_label, dialog_step, to_wide, DialogEvent, DialogReply, DialogState, ID_BTN_ABORT,
    ID_BTN_DO_NOW,
};

fn quiet() -> DialogReply {
    DialogReply {
        kill_timer: false,
        show_seconds: None,
        post_close: false,
        post_quit: false,
        default_handling: false,
    }
}

#[test]
fn countdown_runs_out_after_ten_ticks() {
    let mut s = DialogState::new();
    for left in (1..10).rev() {
        let (next, r) = dialog_step(s, DialogEvent::Timer);
        assert_eq!(r, DialogReply { show_seconds: Some(left), ..quiet() });
        assert!(!next.should_proceed);
        s = next;
    }
    let (s, r) = dialog_step(s, DialogEvent::Timer);
    assert!(s.should_proceed);
    assert_eq!(r, DialogReply { kill_timer: true, post_close: true, ..quiet() });
}

#[test]
fn buttons_and_close() {
    let s = DialogState::new();
    let (a, r) = dialog_step(s, DialogEvent::Command { control: ID_BTN_ABORT });
    assert!(!a.should_proceed);
    assert!(r.kill_timer && r.post_close);
    let (d, _) = dialog_step(s, DialogEvent::Command { control: ID_BTN_DO_NOW });
    assert!(d.should_proceed);
    let (c, r) = dialog_step(s, DialogEvent::Close);
    assert_eq!(c, s);
    assert!(r.kill_timer && r.default_handling);
    let (_, r) = dialog_step(s, DialogEvent::Destroy);
    assert!(r.post_quit);
    let (_, r) = dialog_step(s, DialogEvent::Command { control: 7 });
    assert!(r.default_handling && !r.kill_timer);
}

#[test]
fn label_and_wide_strings() {
    assert_eq!(countdown_label(10), "Steam is shutting down in 10...");
    assert_eq!(to_wide("Ab"), vec![65, 98, 0]);
    let expected: Vec<u16> = "é😀".encode_utf16().chain(std::iter::once(0)).collect();
    assert_eq!(to_wide("é😀"), expected);
}
