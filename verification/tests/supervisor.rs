use lsp_proxy::supervisor::{ChannelId, SupervisorEvent, SupervisorState};

fn running() -> SupervisorState {
    let mut state = SupervisorState::new();
    state.start();
    state
}

#[test]
fn child_exit_code_propagates() {
    let mut state = running();
    state.on_event(&SupervisorEvent::ChildExited { code: Some(7) });
    assert_eq!(state.exit_code(), 7);
}

#[test]
fn channel_eof_terminates_without_waiting() {
    // The child's stdout closing ends the race at once: the supervisor is
    // terminated and exits cleanly without consulting the other channels.
    let mut state = running();
    state.on_event(&SupervisorEvent::ChannelFinished { channel: ChannelId::ServerToClient });
    assert_eq!(state.exit_code(), 0);
}

#[test]
fn any_channel_finishing_exits_cleanly() {
    for channel in [
        ChannelId::ClientToServer,
        ChannelId::ServerToClient,
        ChannelId::ServerDiagnostics,
    ] {
        let mut state = running();
        state.on_event(&SupervisorEvent::ChannelFinished { channel });
        assert_eq!(state.exit_code(), 0);
    }
}

#[test]
fn missing_exit_status_maps_to_one() {
    let mut state = running();
    state.on_event(&SupervisorEvent::ChildExited { code: None });
    assert_eq!(state.exit_code(), 1);
}

#[test]
fn wait_failure_maps_to_one() {
    let mut state = running();
    state.on_event(&SupervisorEvent::ChildWaitFailed);
    assert_eq!(state.exit_code(), 1);
}
