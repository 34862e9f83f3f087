//! Tasks on an account, and the errors that they report.
use ds_core::accounts::{
    pool_error, pow_step, setup_step, upload_step, upload_target, FileInfo, PowEvent, PowStage,
    SetupEvent, SetupKind, SetupStage, UploadEvent, UploadStage, UPLOAD_POLL_INTERVAL_MS,
    UPLOAD_POLL_MAX_RETRIES,
};
use ds_core::error::{connection_error, ClientError, CoreError, PoolError, PowError};

fn client(m: &str) -> ClientError {
    ClientError { message: m.to_string() }
}

fn pow(m: &str) -> PowError {
    PowError { message: m.to_string() }
}

fn file(status: &str) -> Vec<FileInfo> {
    vec![FileInfo { status: status.to_string(), file_name: "名.txt".to_string() }]
}

fn start() -> UploadStage {
    let stage = upload_step(UploadStage::ComputePow, UploadEvent::Pow(Ok("h".to_string())));
    match &stage {
        UploadStage::Upload { pow_header } => assert_eq!(pow_header, "h"),
        _ => panic!("no upload"),
    }
    upload_step(stage, UploadEvent::Uploaded(Ok("f1".to_string())))
}

fn failure(stage: UploadStage) -> String {
    match stage {
        UploadStage::Finished(Err(e)) => e.message(),
        _ => panic!("no failure"),
    }
}

#[test]
fn messages_of_the_errors() {
    assert_eq!(CoreError::Overloaded.message(), "no available account");
    assert_eq!(CoreError::ProofOfWorkFailed(pow("x")).message(), "proof of work failed: x");
    assert_eq!(CoreError::ProviderError("坏".to_string()).message(), "provider: 坏");
    assert_eq!(CoreError::Stream("s".to_string()).message(), "stream error: s");
}

#[test]
fn errors_of_other_layers() {
    assert_eq!(CoreError::from(client("c")).message(), "provider: c");
    assert_eq!(CoreError::from(pow("p")).message(), "proof of work failed: p");
    assert_eq!(connection_error(client("gone")).message(), "stream error: gone");
}

#[test]
fn errors_of_the_pool() {
    assert_eq!(
        pool_error(PoolError::AllAccountsFailed).message(),
        "provider: 所有账号初始化失败"
    );
    assert_eq!(pool_error(PoolError::Client(client("c"))).message(), "provider: c");
    assert_eq!(pool_error(PoolError::Pow(pow("p"))).message(), "proof of work failed: p");
    assert_eq!(
        pool_error(PoolError::Validation("v".to_string())).message(),
        "provider: 配置错误: v"
    );
    assert_eq!(pool_error(PoolError::Other("o".to_string())).message(), "provider: o");
}

#[test]
fn a_start_initialises_the_pool() {
    let stage = setup_step(
        SetupKind::Start,
        SetupStage::FetchWasm,
        SetupEvent::Wasm(Ok(vec![1u8, 2u8])),
    );
    match &stage {
        SetupStage::BuildSolver { wasm } => assert_eq!(wasm, &vec![1u8, 2u8]),
        _ => panic!("no solver"),
    }
    let stage = setup_step(SetupKind::Start, stage, SetupEvent::Solver(Ok(())));
    assert!(matches!(stage, SetupStage::InitPool));
    let stage = setup_step(SetupKind::Start, stage, SetupEvent::Pool(Ok(())));
    assert!(matches!(stage, SetupStage::Install));
    let stage = setup_step(SetupKind::Start, stage, SetupEvent::Wasm(Err(client("late"))));
    assert!(matches!(stage, SetupStage::Install));
}

#[test]
fn a_reload_leaves_the_pool() {
    let stage = SetupStage::BuildSolver { wasm: Vec::new() };
    let stage = setup_step(SetupKind::Reload, stage, SetupEvent::Solver(Ok(())));
    assert!(matches!(stage, SetupStage::Install));
}

#[test]
fn a_setup_fails_at_each_stage() {
    match setup_step(
        SetupKind::Reload,
        SetupStage::FetchWasm,
        SetupEvent::Wasm(Err(client("no wasm"))),
    ) {
        SetupStage::Failed(e) => assert_eq!(e.message(), "provider: no wasm"),
        _ => panic!("no failure"),
    }
    match setup_step(
        SetupKind::Start,
        SetupStage::BuildSolver { wasm: Vec::new() },
        SetupEvent::Solver(Err(pow("no solver"))),
    ) {
        SetupStage::Failed(e) => assert_eq!(e.message(), "proof of work failed: no solver"),
        _ => panic!("no failure"),
    }
    let failed = setup_step(
        SetupKind::Start,
        SetupStage::InitPool,
        SetupEvent::Pool(Err(PoolError::AllAccountsFailed)),
    );
    match setup_step(SetupKind::Start, failed, SetupEvent::Pool(Ok(()))) {
        SetupStage::Failed(e) => assert_eq!(e.message(), "provider: 所有账号初始化失败"),
        _ => panic!("no failure"),
    }
}

#[test]
fn what_a_setup_did_not_ask_for_changes_nothing() {
    let stage = setup_step(SetupKind::Start, SetupStage::FetchWasm, SetupEvent::Pool(Ok(())));
    assert!(matches!(stage, SetupStage::FetchWasm));
}

#[test]
fn a_proof_of_work_is_computed() {
    let stage = pow_step(PowStage::Challenge, PowEvent::Challenge(Ok(())));
    assert!(matches!(stage, PowStage::Solve));
    match pow_step(stage, PowEvent::Solved(Ok("header".to_string()))) {
        PowStage::Finished(Ok(h)) => assert_eq!(h, "header"),
        _ => panic!("no header"),
    }
}

#[test]
fn a_proof_of_work_fails() {
    match pow_step(PowStage::Challenge, PowEvent::Challenge(Err(client("c")))) {
        PowStage::Finished(Err(e)) => assert_eq!(e.message(), "provider: c"),
        _ => panic!("no failure"),
    }
    match pow_step(PowStage::Solve, PowEvent::Solved(Err(pow("p")))) {
        PowStage::Finished(Err(e)) => assert_eq!(e.message(), "proof of work failed: p"),
        _ => panic!("no failure"),
    }
    assert!(matches!(
        pow_step(PowStage::Challenge, PowEvent::Solved(Ok("early".to_string()))),
        PowStage::Challenge
    ));
}

#[test]
fn an_upload_is_for_its_target() {
    assert_eq!(upload_target(), "/api/v0/file/upload_file");
    assert_eq!(UPLOAD_POLL_INTERVAL_MS, 2000);
    assert_eq!(UPLOAD_POLL_MAX_RETRIES, 30);
}

#[test]
fn an_upload_waits_for_its_file() {
    let mut stage = start();
    for status in ["PENDING", "PARSING", ""] {
        stage = upload_step(stage, UploadEvent::Fetched(Ok(file(status))));
        assert!(matches!(stage, UploadStage::Sleep { .. }));
        stage = upload_step(stage, UploadEvent::Woke);
        assert!(matches!(stage, UploadStage::Fetch { .. }));
    }
    stage = upload_step(stage, UploadEvent::Fetched(Ok(Vec::new())));
    stage = upload_step(stage, UploadEvent::Woke);
    match upload_step(stage, UploadEvent::Fetched(Ok(file("SUCCESS")))) {
        UploadStage::Finished(Ok(id)) => assert_eq!(id, "f1"),
        _ => panic!("not finished"),
    }
}

#[test]
fn an_upload_fails_after_a_wait() {
    let stage = upload_step(start(), UploadEvent::Fetched(Ok(file("PENDING"))));
    let stage = upload_step(stage, UploadEvent::Woke);
    assert_eq!(
        failure(upload_step(stage, UploadEvent::Fetched(Ok(file("FAILED"))))),
        "provider: 文件上传失败: 名.txt"
    );
    let stage = upload_step(start(), UploadEvent::Fetched(Ok(Vec::new())));
    let stage = upload_step(stage, UploadEvent::Woke);
    assert_eq!(
        failure(upload_step(stage, UploadEvent::Fetched(Err(client("gone"))))),
        "provider: gone"
    );
}

#[test]
fn only_the_first_file_counts() {
    let mut files = file("PENDING");
    files.extend(file("SUCCESS"));
    assert!(matches!(
        upload_step(start(), UploadEvent::Fetched(Ok(files))),
        UploadStage::Sleep { .. }
    ));
}

#[test]
fn an_upload_fails() {
    assert_eq!(
        failure(upload_step(
            UploadStage::ComputePow,
            UploadEvent::Pow(Err(CoreError::ProofOfWorkFailed(pow("p"))))
        )),
        "proof of work failed: p"
    );
    assert_eq!(
        failure(upload_step(
            UploadStage::Upload { pow_header: String::new() },
            UploadEvent::Uploaded(Err(client("u")))
        )),
        "provider: u"
    );
    assert_eq!(
        failure(upload_step(start(), UploadEvent::Fetched(Err(client("f"))))),
        "provider: f"
    );
    assert_eq!(
        failure(upload_step(start(), UploadEvent::Fetched(Ok(file("FAILED"))))),
        "provider: 文件上传失败: 名.txt"
    );
}

#[test]
fn an_upload_gives_up_after_thirty_questions() {
    let mut stage = start();
    let mut questions: u32 = 0;
    loop {
        match stage {
            UploadStage::Fetch { .. } => {
                questions += 1;
                stage = upload_step(stage, UploadEvent::Fetched(Ok(file("PENDING"))));
            }
            UploadStage::Sleep { .. } => stage = upload_step(stage, UploadEvent::Woke),
            _ => break,
        }
    }
    assert_eq!(questions, 30);
    assert_eq!(failure(stage), "provider: 文件处理超时");
}

#[test]
fn an_upload_can_succeed_at_the_last_question() {
    let mut stage = start();
    for _ in 0u32..29u32 {
        stage = upload_step(stage, UploadEvent::Fetched(Ok(file("PENDING"))));
        stage = upload_step(stage, UploadEvent::Woke);
    }
    let stage = upload_step(stage, UploadEvent::Fetched(Ok(file("SUCCESS"))));
    match upload_step(stage, UploadEvent::Woke) {
        UploadStage::Finished(Ok(id)) => assert_eq!(id, "f1"),
        _ => panic!("not finished"),
    }
}
