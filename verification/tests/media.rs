use touchhle::av_audio_player::{
    derive_buffer_size, AVAudioPlayer, FillAction, PlayStep, ReadRequest, FULL_VOLUME,
    MAX_BUFFER_SIZE, MIN_BUFFER_SIZE,
};
use touchhle::ca_eagl_layer::{
    find_fullscreen_eagl_layer, Layer, Layers, Nearness, Window, HALF,
};
use touchhle::eagl;
use touchhle::eagl::{
    is_reusable, limit_framerate, pixel_bytes, present_plan, present_result,
    renderbuffer_size, renderbuffer_storage, set_current_context, supports_api, Bindings,
    CurrentContext, PresentPlan, PresentTexture,
};
use touchhle::gl_present::{
    attach_commands, discard_commands, restore_commands, setup_commands, ArrayPointer, GlCommand, GlState, MatrixMode, Rgba, Viewport,
};
use touchhle::ns_exception::{
    assert_policy, assertion_failure, assertion_outcome, describe_exception, exception_fields,
    format_trace, guest_return_addresses, init_exception, new_exception_host_object,
    objc_exception_throw, raise_common, raise_outcome, AssertPolicy, ExceptionLog, RaiseOutcome,
};
use touchhle::ns_file_manager::{
    cocoa_file_error_code, copy_source_error_code, file_attributes, file_exists_at_path,
    is_deletable, write_cocoa_file_error, FileType, FsError, NSDocumentDirectory, NSHomeDirectory,
    NSSearchPathForDirectoriesInDomains, NSTemporaryDirectory,
};
use touchhle::ns_array;
use touchhle::ns_string;
use touchhle::objc::{release, Environment, HostObject, NIL};
use touchhle::singles::ONE;

#[test]
fn buffers_have_bounds() {
    assert_eq!(derive_buffer_size(1024, 10, 4000), (40000, 10));
    assert_eq!(derive_buffer_size(1024, 1, 4000), (MIN_BUFFER_SIZE, 4));
    assert_eq!(derive_buffer_size(1024, 1000, 4000), (MAX_BUFFER_SIZE, 81));
    assert_eq!(derive_buffer_size(0, 0, 4000).0, MAX_BUFFER_SIZE);
    assert_eq!(derive_buffer_size(0, 0, 0x60000), (0x60000, 1));
}

#[test]
fn player_loops_and_ends() {
    let mut player = AVAudioPlayer::new(1);
    assert_eq!(player.begin_fill(), None);
    assert_eq!(player.play_steps(), vec![PlayStep::Prepare, PlayStep::Start]);
    player.audio_file_id = Some(4);
    player.prepared(1024, 2, 3, 50);
    player.num_of_loops = 1;
    let mut priming = player.begin_prime();
    assert_eq!(player.begin_fill(), Some(ReadRequest { start: 0, count: 50 }));
    assert_eq!(player.end_fill(30, 999), FillAction::Enqueue(999));
    assert_eq!(player.current_packet, 30);
    assert_eq!(player.end_fill(0, 0), FillAction::ReadAgain);
    assert_eq!((player.num_of_loops, player.current_packet), (0, 0));
    priming.buffer_filled(&player);
    player.end_prime(priming);
    assert!(!player.is_playing_now());
    player.started();
    assert!(player.is_playing_now());
    assert_eq!(player.end_fill(0, 0), FillAction::StopQueue);
    assert!(player.finished && !player.is_playing_now());
    assert_eq!(
        player.play_steps(),
        vec![PlayStep::StopQueue, PlayStep::Seek, PlayStep::Prime, PlayStep::Start]
    );
    player.num_of_loops = -1;
    assert_eq!(player.end_fill(0, 0), FillAction::ReadAgain);
    assert_eq!(player.num_of_loops, -1);
}

#[test]
fn player_is_controlled() {
    let mut player = AVAudioPlayer::new(1);
    assert_eq!(player.stop(), None);
    player.audio_file_id = Some(4);
    player.seek(5, true, 9);
    assert_eq!((player.set_current_time, player.current_packet), (5, 0));
    player.prepared(1024, 2, 3, 50);
    player.seek(5, true, 9);
    assert_eq!(player.current_packet, 9);
    player.seek(6, false, 9);
    assert_eq!(player.current_packet, 0);
    assert_eq!(player.set_volume(77), Some(2));
    player.started();
    assert_eq!(player.pause(), Some(2));
    assert!(!player.is_playing);
    assert_eq!(player.stop(), Some((2, Some(3))));
    assert_eq!((player.audio_queue, player.volume), (None, FULL_VOLUME));
    assert_eq!(player.audio_file_id, Some(4));
}

fn layer(is_eagl: bool, sublayers: Vec<usize>) -> Layer {
    let near = Nearness { x: true, y: true, x_turned: false, y_turned: false };
    Layer {
        size: near,
        position: near,
        origin_x_near: true,
        origin_y_near: true,
        anchor_x: HALF,
        anchor_y: HALF,
        hidden: false,
        opacity: ONE,
        opaque: true,
        is_eagl,
        is_large: true,
        is_editing: false,
        is_focused: false,
        sublayers,
        presented_pixels: None,
        texture_is_up_to_date: true,
    }
}

#[test]
fn fullscreen_layer_is_found() {
    let windows = vec![Window { hidden: false, layer: 0 }, Window { hidden: true, layer: 2 }];
    let mut layers = Layers {
        layers: vec![layer(false, vec![1]), layer(true, vec![2]), layer(false, vec![])],
        screen_has_area: true,
    };
    let find = |layers: &Layers| find_fullscreen_eagl_layer(false, &windows, layers);
    assert_eq!(find(&layers), None);
    // A small overlay is passed over, unless it is being edited.
    layers.layers[2].is_large = false;
    assert!(layers.overlay_is_ignorable(2));
    assert_eq!(find(&layers), Some(1));
    layers.layers[2].is_editing = true;
    assert_eq!(find(&layers), None);
    layers.layers[2].is_editing = false;
    layers.layers[2].is_focused = true;
    assert_eq!(find(&layers), None);
    layers.layers[2].is_focused = false;
    // A turned layer fills the screen as well.
    layers.layers[1].size =
        Nearness { x: false, y: false, x_turned: true, y_turned: true };
    assert_eq!(find(&layers), Some(1));
    layers.layers[1].size.y_turned = false;
    assert_eq!(find(&layers), None);
    layers.layers[1].size.y = true;
    layers.layers[1].size.x = true;
    layers.layers[1].opacity = HALF;
    assert_eq!(find(&layers), None);
    layers.layers[1].opacity = ONE;
    layers.layers[0].hidden = true;
    assert_eq!(find(&layers), None);
    layers.layers[0].hidden = false;
    assert_eq!(find(&layers), Some(1));
    assert_eq!(find_fullscreen_eagl_layer(true, &windows, &layers), None);
    assert_eq!(find_fullscreen_eagl_layer(false, &vec![], &layers), None);
    assert!(layers.get_pixels_vec_for_presenting(1).is_empty());
    layers.present_pixels(1, vec![1, 2, 3, 4], 1, 1);
    assert!(!layers.layers[1].texture_is_up_to_date);
    assert_eq!(layers.get_pixels_vec_for_presenting(1), vec![1, 2, 3, 4]);
    assert!(layers.layers[1].presented_pixels.is_none());
}

#[test]
fn renderbuffers_are_presented() {
    let mut env = Environment::new(0x1000);
    let a = env.objc.alloc_object(HostObject::Instance(1));
    let b = env.objc.alloc_object(HostObject::Instance(1));
    let mut bindings = Bindings::new();
    assert!(renderbuffer_storage(&mut env, &mut bindings, 5, a));
    assert_eq!(env.objc.objects[a as usize].retain_count, Some(2));
    assert_eq!(present_plan(false, &bindings, 5, NIL), PresentPlan::Copy(a));
    assert_eq!(present_plan(false, &bindings, 5, a), PresentPlan::Direct);
    assert_eq!(present_plan(false, &bindings, 5, b), PresentPlan::Hidden);
    assert_eq!(present_plan(false, &bindings, 6, a), PresentPlan::NotBound);
    assert_eq!(present_plan(true, &bindings, 5, a), PresentPlan::Backgrounded);
    assert!(present_result(PresentPlan::Hidden) && !present_result(PresentPlan::NotBound));
    renderbuffer_storage(&mut env, &mut bindings, 5, b);
    assert_eq!(bindings.get(5), Some(b));
    assert_eq!(env.objc.objects[a as usize].retain_count, Some(1));
    assert_eq!(renderbuffer_size(320, 480, 2), (640, 960));
    assert_eq!(pixel_bytes(2, 3), Some(24));
    assert!(supports_api(1) && !supports_api(2));
    let mut current = CurrentContext { context: None };
    assert!(set_current_context(&mut env, &mut current, a));
    assert_eq!(current.context, Some(a));
    assert!(set_current_context(&mut env, &mut current, NIL));
    assert_eq!(env.objc.objects[a as usize].retain_count, Some(1));
    let cache = PresentTexture { texture: 3, width: 4, height: 5 };
    assert!(is_reusable(cache, 4, 5, true));
    assert!(!is_reusable(cache, 4, 6, true) && !is_reusable(cache, 4, 5, false));
}

#[test]
fn frames_are_paced() {
    let mut due = None;
    assert_eq!(limit_framerate(&mut due, 100, None, 7), None);
    assert_eq!(due, None);
    assert_eq!(limit_framerate(&mut due, 100, Some(10), 7), None);
    assert_eq!(due, Some(110));
    assert_eq!(limit_framerate(&mut due, 105, Some(10), 7), Some(5));
    assert_eq!(due, Some(120));
    assert_eq!(limit_framerate(&mut due, 130, Some(10), 7), None);
    assert_eq!(due, Some(130));
    assert_eq!(limit_framerate(&mut due, 150, Some(10), 20), None);
    assert_eq!(due, Some(150));
    let mut due = Some(0);
    let interval = 1.0 / 60.0;
    let now = 33_333_334;
    let skipped = interval * (now as f64 / 1e9 / interval).ceil();
    let skipped = (skipped * 1e9).round() as u64;
    assert_eq!(limit_framerate(&mut due, now, Some(16_666_667), skipped), None);
    assert_eq!(due, Some(50_000_000));
}

fn gl_state() -> GlState {
    let c = Rgba { r: 1, g: 2, b: 3, a: 4 };
    let pointer = ArrayPointer { binding: 6, size: 2, kind: 7, stride: 8, pointer: 9 };
    GlState {
        renderbuffer: 1,
        framebuffer: 10,
        texture_2d: 11,
        arrays: vec![true, false, true, false],
        capabilities: vec![true; 40],
        matrix_mode: MatrixMode::Texture,
        color: c,
        viewport: Viewport { x: 0, y: 0, width: 5, height: 6 },
        clear_color: c,
        array_buffer: 12,
        vertex: pointer,
        tex_coord: pointer,
        blend_source: 13,
        blend_target: 14,
        tex_env_mode: 15,
    }
}

#[test]
fn presenting_puts_the_state_back() {
    let mut saved = gl_state();
    saved.arrays = vec![true; 8];
    let cache = PresentTexture { texture: 0, width: 0, height: 0 };
    let (setup, used) = setup_commands(&saved, 2, cache, false, 3, 64, 32, None);
    assert_eq!(used, PresentTexture { texture: 3, width: 64, height: 32 });
    assert_eq!(
        attach_commands(&saved, 2),
        vec![
            GlCommand::GenFramebuffer(2),
            GlCommand::BindFramebuffer(2),
            GlCommand::AttachRenderbuffer(1),
        ]
    );
    assert_eq!(discard_commands(cache, false), vec![]);
    assert_eq!(discard_commands(used, false), vec![GlCommand::DeleteTexture(3)]);
    assert_eq!(discard_commands(used, true), vec![]);
    assert_eq!(
        setup[..5],
        [
            GlCommand::GenTexture(3),
            GlCommand::BindTexture(3),
            GlCommand::CopyTexImage { width: 64, height: 32 },
            GlCommand::TexMinFilterLinear,
            GlCommand::DeleteFramebuffer(2),
        ]
    );
    let (own, _) = setup_commands(&saved, 2, cache, false, 3, 64, 32, Some(20));
    assert_eq!(
        own[3..8],
        [
            GlCommand::TexMinFilterLinear,
            GlCommand::TexMagFilterLinear,
            GlCommand::TexClampHorizontal,
            GlCommand::TexClampVertical,
            GlCommand::DeleteFramebuffer(2),
        ]
    );
    let (again, same) = setup_commands(&saved, 2, used, true, 9, 64, 32, Some(20));
    assert_eq!(same, used);
    assert_eq!(again[1], GlCommand::CopyTexSubImage { width: 64, height: 32 });
    let (first, second) = restore_commands(&saved, None);
    assert!(first.contains(&GlCommand::SetViewport(saved.viewport)));
    assert!(first.contains(&GlCommand::BindBuffer(12)));
    assert!(first.contains(&GlCommand::SetMatrixMode(MatrixMode::Texture)));
    assert_eq!(first.last(), Some(&GlCommand::TexEnvMode(15)));
    assert_eq!(second, vec![GlCommand::BindTexture(11), GlCommand::BindFramebuffer(10)]);
    let (first, second) = restore_commands(&saved, Some(20));
    assert_eq!(first.last(), Some(&GlCommand::BindRenderbuffer(20)));
    assert_eq!(second[0], GlCommand::BindRenderbuffer(1));
}

#[test]
fn contexts_let_their_layers_go() {
    let mut env = Environment::new(0x1000);
    let layer = ns_string::from_rust_string(&mut env, "layer".to_string());
    let buffer = env.mem.allocate(8);
    let mut bindings = Bindings::new();
    assert!(renderbuffer_storage(&mut env, &mut bindings, 5, layer));
    assert_eq!(env.objc.objects[layer as usize].retain_count, Some(2));
    eagl::dealloc(&mut env, &mut bindings, true, &vec![]);
    assert_eq!(bindings.get(5), Some(layer));
    assert_eq!(env.objc.objects[layer as usize].retain_count, Some(2));
    eagl::dealloc(&mut env, &mut bindings, false, &vec![buffer]);
    assert_eq!(bindings.get(5), None);
    assert_eq!(env.objc.objects[layer as usize].retain_count, Some(1));
    assert!(!env.mem.allocations.iter().any(|a| a.0 == buffer));
}

#[test]
fn exceptions_are_described() {
    let mut env = Environment::new(0x1000);
    let name = ns_string::from_rust_string(&mut env, "Name".to_string());
    let reason = ns_string::from_rust_string(&mut env, "Reason".to_string());
    let exception = new_exception_host_object(&mut env);
    assert_eq!(init_exception(&mut env, exception, name, reason, NIL), exception);
    assert_eq!(exception_fields(&env, exception), Some((name, reason, NIL)));
    let (class, n, r) =
        describe_exception(&env, exception, &Some("NSException".to_string()), NIL);
    assert_eq!((class.as_str(), n.as_str(), r.as_str()), ("NSException", "Name", "Reason"));
    // The exception owns its contents.
    release(&mut env, exception);
    assert!(!env.objc.is_object(name) && !env.objc.is_object(reason));
}

#[test]
fn exceptions_abort_or_not() {
    assert_eq!(assert_policy(&None), AssertPolicy::Auto);
    assert_eq!(assert_policy(&Some("abort".to_string())), AssertPolicy::Abort);
    assert_eq!(assert_policy(&Some("log".to_string())), AssertPolicy::Log);
    assert_eq!(assert_policy(&Some(" log\n".to_string())), AssertPolicy::Log);
    assert_eq!(assert_policy(&Some("other".to_string())), AssertPolicy::Auto);
    let mut log = ExceptionLog { count: 0 };
    assert_eq!(
        raise_outcome(&mut log, AssertPolicy::Log, &vec![0x124930]),
        RaiseOutcome::LogAndContinue
    );
    assert_eq!(log.count, 1);
    assert_eq!(raise_outcome(&mut log, AssertPolicy::Abort, &vec![]), RaiseOutcome::Abort);
    assert_eq!(
        raise_outcome(&mut log, AssertPolicy::Auto, &vec![0x1000, 0x124966]),
        RaiseOutcome::Abort
    );
    assert_eq!(log.count, 1);
    log.count = 64;
    assert_eq!(
        raise_outcome(&mut log, AssertPolicy::Auto, &vec![0x124968]),
        RaiseOutcome::Continue
    );
    assert_eq!(assertion_outcome(&mut log, AssertPolicy::Abort), RaiseOutcome::Abort);
    assert_eq!(log.count, 65);
    log.count = 256;
    assert_eq!(
        assertion_outcome(&mut log, AssertPolicy::Auto),
        RaiseOutcome::LogAndContinue
    );
    assert_eq!(log.count, 257);
}

#[test]
fn guest_frames_are_walked() {
    let mut env = Environment::new(0x1000);
    let base = env.mem.allocate(64);
    env.mem.write_u32(base, base + 16);
    env.mem.write_u32(base + 4, 0x2001);
    env.mem.write_u32(base + 16, 0);
    env.mem.write_u32(base + 20, 0x3001);
    let found = guest_return_addresses(&env.mem, base, 0x1001, base, 8);
    assert_eq!(found, vec![0x1000, 0x2000, 0x3000]);
    assert_eq!(guest_return_addresses(&env.mem, base, 0x1001, base, 1), vec![0x1000]);
    assert_eq!(guest_return_addresses(&env.mem, base, 0x1001, base + 2, 8), vec![0x1000]);
    assert_eq!(format_trace(&found), "0x1000 \u{2190} 0x2000 \u{2190} 0x3000");

    let mut log = ExceptionLog { count: 0 };
    let (outcome, trace) =
        raise_common(&mut log, AssertPolicy::Auto, &env.mem, base, 0x1001, base);
    assert_eq!((outcome, &trace), (RaiseOutcome::LogAndContinue, &found));
    env.mem.write_u32(base + 20, 0x124931);
    let (outcome, trace) =
        raise_common(&mut log, AssertPolicy::Auto, &env.mem, base, 0x1001, base);
    assert_eq!((outcome, trace), (RaiseOutcome::Abort, vec![0x1000, 0x2000, 0x124930]));
    let (outcome, _) =
        assertion_failure(&mut log, AssertPolicy::Auto, &env.mem, base, 0x1001, base);
    assert_eq!(outcome, RaiseOutcome::LogAndContinue);
    let (outcome, trace) = objc_exception_throw(&env.mem, base, 0x1001, base);
    assert_eq!((outcome, trace.len()), (RaiseOutcome::Abort, 3));
}

#[test]
fn long_call_chains_are_cut() {
    let mut env = Environment::new(0x1000);
    let base = env.mem.allocate(8 * 20);
    for i in 0..20u32 {
        env.mem.write_u32(base + 8 * i, base + 8 * (i + 1));
        env.mem.write_u32(base + 8 * i + 4, 0x5000 + 2 * i);
    }
    let (_, trace) = objc_exception_throw(&env.mem, base, 0x4000, base);
    assert_eq!(trace.len(), 12);
    assert_eq!(trace[11], 0x5000 + 2 * 10);
}

#[test]
fn file_errors_and_directories() {
    assert_eq!(cocoa_file_error_code(FsError::AccessDenied), 513);
    assert_eq!(cocoa_file_error_code(FsError::ReadonlyParentDir), 513);
    assert_eq!(cocoa_file_error_code(FsError::Other), 512);
    assert_eq!(copy_source_error_code(false), 260);
    let mut env = Environment::new(0x1000);
    let mut strings = ns_string::State::new();
    let out = env.mem.allocate(4);
    write_cocoa_file_error(&mut env, &mut strings, out, 513);
    match &env.objc.objects[env.mem.read_u32(out) as usize].host {
        HostObject::NSError { domain, code } => {
            assert_eq!(*code, 513);
            assert_eq!(ns_string::to_rust_string(&env, *domain), "NSCocoaErrorDomain");
        }
        _ => panic!(),
    }
    write_cocoa_file_error(&mut env, &mut strings, 0, 513);
    let home = NSHomeDirectory(&mut env, "/home");
    assert_eq!(ns_string::to_rust_string(&env, home), "/home");
    let tmp = NSTemporaryDirectory(&mut env, "/home");
    assert_eq!(ns_string::to_rust_string(&env, tmp), "/home/tmp");
    let dirs =
        NSSearchPathForDirectoriesInDomains(&mut env, "/home", "/Apps", NSDocumentDirectory);
    let first = ns_array::first_object(&env, dirs);
    assert_eq!(ns_string::to_rust_string(&env, first), "/home/Documents");
}

#[test]
fn files_are_asked_about() {
    let mut env = Environment::new(0x1000);
    let flag = env.mem.allocate_with(&vec![9, 9], 2);
    let path = ns_string::from_rust_string(&mut env, "/x".to_string());
    assert!(file_exists_at_path(&mut env, path, true, false, flag));
    assert_eq!(env.mem.bytes_at(flag, 2), vec![1, 9]);
    assert!(file_exists_at_path(&mut env, path, true, true, flag));
    assert_eq!(env.mem.read_u8(flag), 0);
    assert!(!file_exists_at_path(&mut env, path, false, false, 0));
    assert!(is_deletable(true, true, &vec![]) && !is_deletable(true, false, &vec![]));
    assert!(is_deletable(false, true, &vec![true, true]));
    assert!(!is_deletable(false, true, &vec![true, false]));
    assert!(file_attributes(false, 1, 2, true, false).is_none());
    let attrs = file_attributes(true, 1, 2, false, true).unwrap();
    assert_eq!((attrs.modified, attrs.size, attrs.kind), (1, 2, FileType::Directory));
}

#[test]
fn only_the_first_buffer_ends_a_player() {
    let mut player = AVAudioPlayer::new(1);
    let mut priming = player.begin_prime();
    for buffer in 0..3 {
        assert_eq!(priming.next_buffer(), Some(buffer));
        // The file ends with the second buffer.
        player.finished = buffer > 0;
        priming.buffer_filled(&player);
    }
    assert_eq!(priming.next_buffer(), None);
    player.end_prime(priming);
    assert!(!player.finished && !player.is_playing);
    let mut priming = player.begin_prime();
    assert!(player.is_playing);
    player.finished = true;
    priming.buffer_filled(&player);
    player.finished = false;
    priming.buffer_filled(&player);
    player.end_prime(priming);
    assert!(player.finished && !player.is_playing);
}
