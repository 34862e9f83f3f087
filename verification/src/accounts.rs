//! Work that is done with an account.
//!
//! Each task here alternates calls on the backend with decisions. The decisions
//! are functions from the stage that a task is in and what a call gave to the next
//! stage; a stage says which call comes next. What a stage did not ask for leaves
//! it as it is.
use vstd::prelude::*;

use crate::error::{ClientError, CoreError, ErrorModel, PoolError, PowError};
use crate::text;

verus! {

/// What a result with a text says.
pub open spec fn outcome(r: Result<String, CoreError>) -> Result<Seq<char>, ErrorModel> {
    match r {
        Ok(s) => Ok(s@),
        Err(e) => Err(e@),
    }
}

/// The error that a failure of the account pool at its start is reported as.
pub open spec fn pool_failure(e: PoolError) -> ErrorModel {
    match e {
        PoolError::AllAccountsFailed => ErrorModel::ProviderError("所有账号初始化失败"@),
        PoolError::Client(e) => ErrorModel::ProviderError(e.message@),
        PoolError::Pow(e) => ErrorModel::ProofOfWorkFailed(e.message@),
        PoolError::Validation(m) => ErrorModel::ProviderError("配置错误: "@ + m@),
        PoolError::Other(m) => ErrorModel::ProviderError(m@),
    }
}

/// The error that a failure of the account pool at its start is reported as.
pub fn pool_error(e: PoolError) -> (r: CoreError)
    ensures
        r@ == pool_failure(e),
        e is AllAccountsFailed ==> r@ == ErrorModel::ProviderError("所有账号初始化失败"@),
        e matches PoolError::Client(c) ==> r@ == ErrorModel::ProviderError(c.message@),
        e matches PoolError::Pow(p) ==> r@ == ErrorModel::ProofOfWorkFailed(p.message@),
        e matches PoolError::Validation(m) ==> r@ == ErrorModel::ProviderError(
            "配置错误: "@ + m@,
        ),
        e matches PoolError::Other(m) ==> r@ == ErrorModel::ProviderError(m@),
{
    match e {
        PoolError::AllAccountsFailed => CoreError::ProviderError(
            "所有账号初始化失败".to_owned(),
        ),
        PoolError::Client(e) => CoreError::from(e),
        PoolError::Pow(e) => CoreError::from(e),
        PoolError::Validation(m) => CoreError::ProviderError(
            "配置错误: ".to_owned().concat(m.as_str()),
        ),
        PoolError::Other(m) => CoreError::ProviderError(m),
    }
}

/// What is to be set up: everything, or only the client and the solver anew.
#[derive(Debug, Clone, Copy, PartialEq, Eq, Structural)]
pub enum SetupKind {
    Start,
    Reload,
}

/// How far a setup has come.
pub enum SetupStage {
    /// The program of the solver is to be fetched.
    FetchWasm,
    /// The solver is to be built from the program.
    BuildSolver { wasm: Vec<u8> },
    /// The account pool is to be initialised.
    InitPool,
    /// The client and the solver are to be put in use.
    Install,
    /// The setup has failed; nothing is put in use.
    Failed(CoreError),
}

/// What a call gave to a setup.
pub enum SetupEvent {
    Wasm(Result<Vec<u8>, ClientError>),
    Solver(Result<(), PowError>),
    Pool(Result<(), PoolError>),
}

/// How far a setup has come.
pub enum SetupModel {
    FetchWasm,
    BuildSolver { wasm: Seq<u8> },
    InitPool,
    Install,
    Failed(ErrorModel),
}

impl View for SetupStage {
    type V = SetupModel;

    open spec fn view(&self) -> SetupModel {
        match self {
            SetupStage::FetchWasm => SetupModel::FetchWasm,
            SetupStage::BuildSolver { wasm } => SetupModel::BuildSolver { wasm: wasm@ },
            SetupStage::InitPool => SetupModel::InitPool,
            SetupStage::Install => SetupModel::Install,
            SetupStage::Failed(e) => SetupModel::Failed(e@),
        }
    }
}

/// The stage of a setup after what a call gave.
pub open spec fn setup_next(kind: SetupKind, stage: SetupModel, event: SetupEvent) -> SetupModel {
    match (stage, event) {
        (SetupModel::FetchWasm, SetupEvent::Wasm(Ok(wasm))) => SetupModel::BuildSolver {
            wasm: wasm@,
        },
        (SetupModel::FetchWasm, SetupEvent::Wasm(Err(e))) => SetupModel::Failed(
            ErrorModel::ProviderError(e.message@),
        ),
        (SetupModel::BuildSolver { .. }, SetupEvent::Solver(Ok(_))) => match kind {
            SetupKind::Start => SetupModel::InitPool,
            SetupKind::Reload => SetupModel::Install,
        },
        (SetupModel::BuildSolver { .. }, SetupEvent::Solver(Err(e))) => SetupModel::Failed(
            ErrorModel::ProofOfWorkFailed(e.message@),
        ),
        (SetupModel::InitPool, SetupEvent::Pool(Ok(_))) => SetupModel::Install,
        (SetupModel::InitPool, SetupEvent::Pool(Err(e))) => SetupModel::Failed(pool_failure(e)),
        _ => stage,
    }
}

/// The stage of a setup after what a call gave.
pub fn setup_step(kind: SetupKind, stage: SetupStage, event: SetupEvent) -> (r: SetupStage)
    ensures
        r@ == setup_next(kind, stage@, event),
        stage is FetchWasm ==> (event matches SetupEvent::Wasm(Ok(program)) ==> (
        r matches SetupStage::BuildSolver { wasm } && wasm@ == program@)),
        stage is BuildSolver ==> (event matches SetupEvent::Solver(Ok(_)) ==> (if kind is Start {
            r is InitPool
        } else {
            r is Install
        })),
        stage is InitPool ==> (event matches SetupEvent::Pool(Ok(_)) ==> r is Install),
{
    match (stage, event) {
        (SetupStage::FetchWasm, SetupEvent::Wasm(Ok(wasm))) => SetupStage::BuildSolver { wasm },
        (SetupStage::FetchWasm, SetupEvent::Wasm(Err(e))) => SetupStage::Failed(
            CoreError::from(e),
        ),
        (SetupStage::BuildSolver { .. }, SetupEvent::Solver(Ok(_))) => match kind {
            SetupKind::Start => SetupStage::InitPool,
            SetupKind::Reload => SetupStage::Install,
        },
        (SetupStage::BuildSolver { .. }, SetupEvent::Solver(Err(e))) => SetupStage::Failed(
            CoreError::from(e),
        ),
        (SetupStage::InitPool, SetupEvent::Pool(Ok(_))) => SetupStage::Install,
        (SetupStage::InitPool, SetupEvent::Pool(Err(e))) => SetupStage::Failed(pool_error(e)),
        (stage, _) => stage,
    }
}

/// The stage of a setup after a list of events.
pub open spec fn setup_run(kind: SetupKind, events: Seq<SetupEvent>) -> SetupModel
    decreases events.len(),
{
    if events.len() == 0 {
        SetupModel::FetchWasm
    } else {
        setup_next(kind, setup_run(kind, events.drop_last()), events.last())
    }
}

/// Whether one of the events is the program.
pub open spec fn got_wasm(events: Seq<SetupEvent>) -> bool {
    exists|i: int| 0 <= i < events.len() && #[trigger] events[i] matches SetupEvent::Wasm(Ok(_))
}

/// Whether one of the events is a solver that was built.
pub open spec fn got_solver(events: Seq<SetupEvent>) -> bool {
    exists|i: int|
        0 <= i < events.len() && #[trigger] events[i] matches SetupEvent::Solver(Ok(_))
}

/// Whether one of the events is a pool that was initialised.
pub open spec fn got_pool(events: Seq<SetupEvent>) -> bool {
    exists|i: int| 0 <= i < events.len() && #[trigger] events[i] matches SetupEvent::Pool(Ok(_))
}

/// Nothing is put in use before all it takes has succeeded: the program was
/// fetched, the solver was built and, at a start, the pool was initialised. A
/// reload leaves the pool alone.
pub proof fn law_install_needs_all(kind: SetupKind, events: Seq<SetupEvent>)
    ensures
        setup_run(kind, events) is BuildSolver ==> got_wasm(events),
        setup_run(kind, events) is InitPool ==> got_wasm(events) && got_solver(events),
        setup_run(kind, events) is Install ==> got_wasm(events) && got_solver(events) && (kind
            is Start ==> got_pool(events)),
        kind is Reload ==> !(setup_run(kind, events) is InitPool),
    decreases events.len(),
{
    if events.len() > 0 {
        let before = events.drop_last();
        law_install_needs_all(kind, before);
        let last = events.len() - 1;
        assert(events[last] == events.last());
        if got_wasm(before) {
            let i = choose|i: int|
                0 <= i < before.len() && #[trigger] before[i] matches SetupEvent::Wasm(Ok(_));
            assert(events[i] == before[i]);
        }
        if got_solver(before) {
            let i = choose|i: int|
                0 <= i < before.len() && #[trigger] before[i] matches SetupEvent::Solver(Ok(_));
            assert(events[i] == before[i]);
        }
        if got_pool(before) {
            let i = choose|i: int|
                0 <= i < before.len() && #[trigger] before[i] matches SetupEvent::Pool(Ok(_));
            assert(events[i] == before[i]);
        }
    }
}

/// A setup that has failed or is complete stays so.
pub proof fn law_setup_result_stays(kind: SetupKind, stage: SetupModel, event: SetupEvent)
    requires
        stage is Failed || stage is Install,
    ensures
        setup_next(kind, stage, event) == stage,
{
}

/// How far the computation of a proof of work has come.
pub enum PowStage {
    /// A challenge is to be fetched.
    Challenge,
    /// The challenge is to be solved.
    Solve,
    /// The header with the proof, or why there is none.
    Finished(Result<String, CoreError>),
}

/// What a call gave to the computation of a proof of work. The challenge itself
/// stays with the caller; a solution comes as the header that carries it.
pub enum PowEvent {
    Challenge(Result<(), ClientError>),
    Solved(Result<String, PowError>),
}

/// How far the computation of a proof of work has come.
pub enum PowModel {
    Challenge,
    Solve,
    Finished(Result<Seq<char>, ErrorModel>),
}

impl View for PowStage {
    type V = PowModel;

    open spec fn view(&self) -> PowModel {
        match self {
            PowStage::Challenge => PowModel::Challenge,
            PowStage::Solve => PowModel::Solve,
            PowStage::Finished(r) => PowModel::Finished(outcome(*r)),
        }
    }
}

/// The stage of a proof of work after what a call gave.
pub open spec fn pow_next(stage: PowModel, event: PowEvent) -> PowModel {
    match (stage, event) {
        (PowModel::Challenge, PowEvent::Challenge(Ok(_))) => PowModel::Solve,
        (PowModel::Challenge, PowEvent::Challenge(Err(e))) => PowModel::Finished(
            Err(ErrorModel::ProviderError(e.message@)),
        ),
        (PowModel::Solve, PowEvent::Solved(Ok(header))) => PowModel::Finished(Ok(header@)),
        (PowModel::Solve, PowEvent::Solved(Err(e))) => PowModel::Finished(
            Err(ErrorModel::ProofOfWorkFailed(e.message@)),
        ),
        _ => stage,
    }
}

/// The stage of a proof of work after what a call gave.
pub fn pow_step(stage: PowStage, event: PowEvent) -> (r: PowStage)
    ensures
        r@ == pow_next(stage@, event),
{
    match (stage, event) {
        (PowStage::Challenge, PowEvent::Challenge(Ok(_))) => PowStage::Solve,
        (PowStage::Challenge, PowEvent::Challenge(Err(e))) => PowStage::Finished(
            Err(CoreError::from(e)),
        ),
        (PowStage::Solve, PowEvent::Solved(Ok(header))) => PowStage::Finished(Ok(header)),
        (PowStage::Solve, PowEvent::Solved(Err(e))) => PowStage::Finished(
            Err(CoreError::from(e)),
        ),
        (stage, _) => stage,
    }
}

/// How long an upload waits before it asks again whether the file is ready.
pub const UPLOAD_POLL_INTERVAL_MS: u64 = 2000;

/// How often an upload asks whether the file is ready.
pub const UPLOAD_POLL_MAX_RETRIES: u32 = 30;

/// The path that the proof of work of an upload is for.
pub fn upload_target() -> (r: &'static str)
    ensures
        r@ == "/api/v0/file/upload_file"@,
{
    "/api/v0/file/upload_file"
}

/// What the backend says of an uploaded file.
#[derive(Debug)]
pub struct FileInfo {
    pub status: String,
    pub file_name: String,
}

/// How far an upload has come.
pub enum UploadStage {
    /// A proof of work for [`upload_target`] is to be computed.
    ComputePow,
    /// The file is to be uploaded.
    Upload { pow_header: String },
    /// It is to be asked whether the file is ready; `left` more such questions may
    /// follow.
    Fetch { file_id: String, left: u32 },
    /// [`UPLOAD_POLL_INTERVAL_MS`] are to pass.
    Sleep { file_id: String, left: u32 },
    /// The number of the file, or why there is none.
    Finished(Result<String, CoreError>),
}

/// What a call gave to an upload.
pub enum UploadEvent {
    Pow(Result<String, CoreError>),
    Uploaded(Result<String, ClientError>),
    Fetched(Result<Vec<FileInfo>, ClientError>),
    Woke,
}

/// How far an upload has come.
pub enum UploadModel {
    ComputePow,
    Upload { pow_header: Seq<char> },
    Fetch { file_id: Seq<char>, left: u32 },
    Sleep { file_id: Seq<char>, left: u32 },
    Finished(Result<Seq<char>, ErrorModel>),
}

impl View for UploadStage {
    type V = UploadModel;

    open spec fn view(&self) -> UploadModel {
        match self {
            UploadStage::ComputePow => UploadModel::ComputePow,
            UploadStage::Upload { pow_header } => UploadModel::Upload { pow_header: pow_header@ },
            UploadStage::Fetch { file_id, left } => UploadModel::Fetch {
                file_id: file_id@,
                left: *left,
            },
            UploadStage::Sleep { file_id, left } => UploadModel::Sleep {
                file_id: file_id@,
                left: *left,
            },
            UploadStage::Finished(r) => UploadModel::Finished(outcome(*r)),
        }
    }
}

/// What the answer of the backend decides of a file: it is ready, it has failed,
/// or nothing yet. Only the first file of the answer counts.
pub open spec fn verdict(file_id: Seq<char>, files: Seq<FileInfo>) -> Option<
    Result<Seq<char>, ErrorModel>,
> {
    if files.len() == 0 {
        None
    } else if files[0].status@ == "SUCCESS"@ {
        Some(Ok(file_id))
    } else if files[0].status@ == "FAILED"@ {
        Some(Err(ErrorModel::ProviderError("文件上传失败: "@ + files[0].file_name@)))
    } else {
        None
    }
}

/// The stage of an upload after what a call gave.
pub open spec fn upload_next(stage: UploadModel, event: UploadEvent) -> UploadModel {
    match (stage, event) {
        (UploadModel::ComputePow, UploadEvent::Pow(Ok(header))) => UploadModel::Upload {
            pow_header: header@,
        },
        (UploadModel::ComputePow, UploadEvent::Pow(Err(e))) => UploadModel::Finished(Err(e@)),
        (UploadModel::Upload { .. }, UploadEvent::Uploaded(Ok(id))) => UploadModel::Fetch {
            file_id: id@,
            left: (UPLOAD_POLL_MAX_RETRIES - 1) as u32,
        },
        (UploadModel::Upload { .. }, UploadEvent::Uploaded(Err(e))) => UploadModel::Finished(
            Err(ErrorModel::ProviderError(e.message@)),
        ),
        (UploadModel::Fetch { file_id, left }, UploadEvent::Fetched(Ok(files))) => match verdict(
            file_id,
            files@,
        ) {
            Some(r) => UploadModel::Finished(r),
            None => UploadModel::Sleep { file_id, left },
        },
        (UploadModel::Fetch { .. }, UploadEvent::Fetched(Err(e))) => UploadModel::Finished(
            Err(ErrorModel::ProviderError(e.message@)),
        ),
        (UploadModel::Sleep { file_id, left }, UploadEvent::Woke) => if left > 0 {
            UploadModel::Fetch { file_id, left: (left - 1) as u32 }
        } else {
            UploadModel::Finished(Err(ErrorModel::ProviderError("文件处理超时"@)))
        },
        _ => stage,
    }
}

/// The stage of an upload after what a call gave.
pub fn upload_step(stage: UploadStage, event: UploadEvent) -> (r: UploadStage)
    ensures
        r@ == upload_next(stage@, event),
{
    match (stage, event) {
        (UploadStage::ComputePow, UploadEvent::Pow(Ok(pow_header))) => UploadStage::Upload {
            pow_header,
        },
        (UploadStage::ComputePow, UploadEvent::Pow(Err(e))) => UploadStage::Finished(Err(e)),
        (UploadStage::Upload { .. }, UploadEvent::Uploaded(Ok(file_id))) => UploadStage::Fetch {
            file_id,
            left: UPLOAD_POLL_MAX_RETRIES - 1,
        },
        (UploadStage::Upload { .. }, UploadEvent::Uploaded(Err(e))) => UploadStage::Finished(
            Err(CoreError::from(e)),
        ),
        (UploadStage::Fetch { file_id, left }, UploadEvent::Fetched(Ok(files))) => {
            if files.len() > 0 && text::same(files[0].status.as_str(), "SUCCESS") {
                UploadStage::Finished(Ok(file_id))
            } else if files.len() > 0 && text::same(files[0].status.as_str(), "FAILED") {
                UploadStage::Finished(
                    Err(
                        CoreError::ProviderError(
                            "文件上传失败: ".to_owned().concat(files[0].file_name.as_str()),
                        ),
                    ),
                )
            } else {
                UploadStage::Sleep { file_id, left }
            }
        },
        (UploadStage::Fetch { .. }, UploadEvent::Fetched(Err(e))) => UploadStage::Finished(
            Err(CoreError::from(e)),
        ),
        (UploadStage::Sleep { file_id, left }, UploadEvent::Woke) => if left > 0 {
            UploadStage::Fetch { file_id, left: left - 1 }
        } else {
            UploadStage::Finished(
                Err(CoreError::ProviderError("文件处理超时".to_owned())),
            )
        },
        (stage, _) => stage,
    }
}

/// The stage of an upload after a list of events.
pub open spec fn upload_run(events: Seq<UploadEvent>) -> UploadModel
    decreases events.len(),
{
    if events.len() == 0 {
        UploadModel::ComputePow
    } else {
        upload_next(upload_run(events.drop_last()), events.last())
    }
}

/// How often an upload has been told about its file.
pub open spec fn polls(events: Seq<UploadEvent>) -> nat
    decreases events.len(),
{
    if events.len() == 0 {
        0
    } else {
        polls(events.drop_last()) + (if upload_run(events.drop_last()) is Fetch && events.last()
            is Fetched {
            1nat
        } else {
            0nat
        })
    }
}

proof fn lemma_polls(events: Seq<UploadEvent>)
    ensures
        match upload_run(events) {
            UploadModel::ComputePow => polls(events) == 0,
            UploadModel::Upload { .. } => polls(events) == 0,
            UploadModel::Fetch { left, .. } => polls(events) + left + 1
                == UPLOAD_POLL_MAX_RETRIES,
            UploadModel::Sleep { left, .. } => polls(events) + left == UPLOAD_POLL_MAX_RETRIES,
            UploadModel::Finished(_) => polls(events) <= UPLOAD_POLL_MAX_RETRIES,
        },
    decreases events.len(),
{
    if events.len() > 0 {
        lemma_polls(events.drop_last());
    }
}

/// An upload asks for its file at most as often as it may.
pub proof fn law_upload_polls_are_bounded(events: Seq<UploadEvent>)
    ensures
        polls(events) <= UPLOAD_POLL_MAX_RETRIES,
{
    lemma_polls(events);
}

/// An upload gives up for want of time only after it has asked as often as it may.
pub proof fn law_upload_gives_up_last(events: Seq<UploadEvent>)
    requires
        events.len() > 0,
        events.last() is Woke,
        upload_run(events) is Finished,
        !(upload_run(events.drop_last()) is Finished),
    ensures
        polls(events) == UPLOAD_POLL_MAX_RETRIES,
        upload_run(events) == UploadModel::Finished(
            Err(ErrorModel::ProviderError("文件处理超时"@)),
        ),
{
    lemma_polls(events.drop_last());
}

/// An upload that has a result keeps it.
pub proof fn law_upload_result_stays(stage: UploadModel, event: UploadEvent)
    requires
        stage is Finished,
    ensures
        upload_next(stage, event) == stage,
{
}

/// Whether a list of files decides nothing yet.
pub open spec fn undecided(files: Seq<FileInfo>) -> bool {
    verdict(Seq::empty(), files) is None
}

/// The stage of an upload that asks for its file, after a list of answers with a
/// pause after each.
pub open spec fn after_answers(stage: UploadModel, answers: Seq<Vec<FileInfo>>) -> UploadModel
    decreases answers.len(),
{
    if answers.len() == 0 {
        stage
    } else {
        upload_next(
            upload_next(
                after_answers(stage, answers.drop_last()),
                UploadEvent::Fetched(Ok(answers.last())),
            ),
            UploadEvent::Woke,
        )
    }
}

/// As long as answers decide nothing, and there are fewer of them than an upload
/// asks for, the next question decides: an answer that the file is ready gives the
/// number that the upload gave, one that it has failed gives an error with its
/// name, and a question that fails gives the error of the client. If as many
/// answers as an upload asks for decide nothing, the upload gives up.
pub proof fn law_upload_waits_for_its_file(
    file_id: Seq<char>,
    answers: Seq<Vec<FileInfo>>,
    next: Vec<FileInfo>,
    failure: ClientError,
)
    requires
        answers.len() <= UPLOAD_POLL_MAX_RETRIES,
        forall|i: int| 0 <= i < answers.len() ==> undecided((#[trigger] answers[i])@),
    ensures
        ({
            let start = UploadModel::Fetch {
                file_id,
                left: (UPLOAD_POLL_MAX_RETRIES - 1) as u32,
            };
            let stage = after_answers(start, answers);
            if answers.len() == UPLOAD_POLL_MAX_RETRIES {
                stage == UploadModel::Finished(
                    Err(ErrorModel::ProviderError("文件处理超时"@)),
                )
            } else {
                &&& stage is Fetch
                &&& next@.len() > 0 && next@[0].status@ == "SUCCESS"@ ==> upload_next(
                    stage,
                    UploadEvent::Fetched(Ok(next)),
                ) == UploadModel::Finished(Ok(file_id))
                &&& next@.len() > 0 && next@[0].status@ == "FAILED"@ ==> upload_next(
                    stage,
                    UploadEvent::Fetched(Ok(next)),
                ) == UploadModel::Finished(
                    Err(ErrorModel::ProviderError("文件上传失败: "@ + next@[0].file_name@)),
                )
                &&& upload_next(stage, UploadEvent::Fetched(Err(failure)))
                    == UploadModel::Finished(Err(ErrorModel::ProviderError(failure.message@)))
            }
        }),
{
    lemma_answers(file_id, answers);
    reveal_strlit("SUCCESS");
    reveal_strlit("FAILED");
    assert("SUCCESS"@.len() != "FAILED"@.len());
}

proof fn lemma_answers(file_id: Seq<char>, answers: Seq<Vec<FileInfo>>)
    requires
        answers.len() <= UPLOAD_POLL_MAX_RETRIES,
        forall|i: int| 0 <= i < answers.len() ==> undecided((#[trigger] answers[i])@),
    ensures
        ({
            let start = UploadModel::Fetch {
                file_id,
                left: (UPLOAD_POLL_MAX_RETRIES - 1) as u32,
            };
            let stage = after_answers(start, answers);
            if answers.len() == UPLOAD_POLL_MAX_RETRIES {
                stage == UploadModel::Finished(
                    Err(ErrorModel::ProviderError("文件处理超时"@)),
                )
            } else {
                stage == UploadModel::Fetch {
                    file_id,
                    left: (UPLOAD_POLL_MAX_RETRIES - 1 - answers.len()) as u32,
                }
            }
        }),
    decreases answers.len(),
{
    if answers.len() > 0 {
        let before = answers.drop_last();
        assert forall|i: int| 0 <= i < before.len() implies undecided((#[trigger] before[i])@) by {
            assert(before[i] == answers[i]);
        }
        lemma_answers(file_id, before);
        assert(undecided(answers[answers.len() - 1]@));
    }
}

/// The steps of a setup, of a start and a reload alike: the solver is built from
/// the program that was fetched, byte for byte; a start then initialises the pool
/// and a reload does not; the first failure ends the setup with its own error.
pub proof fn law_setup_steps(
    kind: SetupKind,
    program: Vec<u8>,
    wasm: Seq<u8>,
    client: ClientError,
    pow: PowError,
    pool: PoolError,
)
    ensures
        setup_next(kind, SetupModel::FetchWasm, SetupEvent::Wasm(Ok(program))) == (
        SetupModel::BuildSolver { wasm: program@ }),
        setup_next(
            SetupKind::Start,
            SetupModel::BuildSolver { wasm },
            SetupEvent::Solver(Ok(())),
        ) == SetupModel::InitPool,
        setup_next(
            SetupKind::Reload,
            SetupModel::BuildSolver { wasm },
            SetupEvent::Solver(Ok(())),
        ) == SetupModel::Install,
        setup_next(kind, SetupModel::InitPool, SetupEvent::Pool(Ok(()))) == SetupModel::Install,
        setup_next(kind, SetupModel::FetchWasm, SetupEvent::Wasm(Err(client)))
            == SetupModel::Failed(ErrorModel::ProviderError(client.message@)),
        setup_next(kind, SetupModel::BuildSolver { wasm }, SetupEvent::Solver(Err(pow)))
            == SetupModel::Failed(ErrorModel::ProofOfWorkFailed(pow.message@)),
        setup_next(kind, SetupModel::InitPool, SetupEvent::Pool(Err(pool))) == SetupModel::Failed(
            pool_failure(pool),
        ),
{
}

/// A setup waits for what it asked for: anything else leaves it as it is.
pub proof fn law_setup_waits(kind: SetupKind, stage: SetupModel, event: SetupEvent)
    requires
        !(stage is FetchWasm && event is Wasm),
        !(stage is BuildSolver && event is Solver),
        !(stage is InitPool && event is Pool),
    ensures
        setup_next(kind, stage, event) == stage,
{
}

/// The solver of a setup is built from bytes that were fetched as its program, and
/// from no others.
pub proof fn law_solver_is_built_from_the_program(kind: SetupKind, events: Seq<SetupEvent>)
    ensures
        setup_run(kind, events) matches SetupModel::BuildSolver { wasm } ==> exists|i: int|
            0 <= i < events.len() && (#[trigger] events[i] matches SetupEvent::Wasm(Ok(program))
                && program@ == wasm),
    decreases events.len(),
{
    if events.len() > 0 {
        let before = events.drop_last();
        law_solver_is_built_from_the_program(kind, before);
        assert(events[events.len() - 1] == events.last());
        if let SetupModel::BuildSolver { wasm } = setup_run(kind, before) {
            let i = choose|i: int|
                0 <= i < before.len() && (#[trigger] before[i] matches SetupEvent::Wasm(
                    Ok(program),
                ) && program@ == wasm);
            assert(events[i] == before[i]);
        }
    }
}

/// A setup whose every call succeeds ends with what it made put in use, and builds
/// its solver from the program on the way.
pub proof fn law_setup_succeeds(program: Vec<u8>)
    ensures
        ({
            let fetched = seq![SetupEvent::Wasm(Ok(program))];
            let built = fetched.push(SetupEvent::Solver(Ok(())));
            let ready = built.push(SetupEvent::Pool(Ok(())));
            &&& setup_run(SetupKind::Reload, fetched) == (SetupModel::BuildSolver {
                wasm: program@,
            })
            &&& setup_run(SetupKind::Start, fetched) == (SetupModel::BuildSolver {
                wasm: program@,
            })
            &&& setup_run(SetupKind::Reload, built) == SetupModel::Install
            &&& setup_run(SetupKind::Start, built) == SetupModel::InitPool
            &&& setup_run(SetupKind::Start, ready) == SetupModel::Install
        }),
{
    let fetched = seq![SetupEvent::Wasm(Ok(program))];
    let built = fetched.push(SetupEvent::Solver(Ok(())));
    let ready = built.push(SetupEvent::Pool(Ok(())));
    assert(fetched.drop_last() =~= Seq::empty());
    assert(built.drop_last() =~= fetched);
    assert(ready.drop_last() =~= built);
    reveal_with_fuel(setup_run, 4);
}

/// Each failure of the pool is reported under its own words.
pub proof fn law_pool_failures(client: ClientError, pow: PowError, text: String)
    ensures
        pool_failure(PoolError::AllAccountsFailed) == ErrorModel::ProviderError(
            "所有账号初始化失败"@,
        ),
        pool_failure(PoolError::Client(client)) == ErrorModel::ProviderError(client.message@),
        pool_failure(PoolError::Pow(pow)) == ErrorModel::ProofOfWorkFailed(pow.message@),
        pool_failure(PoolError::Validation(text)) == ErrorModel::ProviderError(
            "配置错误: "@ + text@,
        ),
        pool_failure(PoolError::Other(text)) == ErrorModel::ProviderError(text@),
{
}

/// The steps of a proof of work: a challenge that came is solved, the header of the
/// solution is the result to the letter, and a failure is reported as what it is.
/// Anything else leaves it as it is.
pub proof fn law_pow_steps(
    header: String,
    client: ClientError,
    pow: PowError,
    stage: PowModel,
    event: PowEvent,
)
    ensures
        pow_next(PowModel::Challenge, PowEvent::Challenge(Ok(()))) == PowModel::Solve,
        pow_next(PowModel::Challenge, PowEvent::Challenge(Err(client))) == PowModel::Finished(
            Err(ErrorModel::ProviderError(client.message@)),
        ),
        pow_next(PowModel::Solve, PowEvent::Solved(Ok(header))) == PowModel::Finished(
            Ok(header@),
        ),
        pow_next(PowModel::Solve, PowEvent::Solved(Err(pow))) == PowModel::Finished(
            Err(ErrorModel::ProofOfWorkFailed(pow.message@)),
        ),
        !(stage is Challenge && event is Challenge) && !(stage is Solve && event is Solved)
            ==> pow_next(stage, event) == stage,
{
}

/// The steps of an upload before it waits: the header goes to the upload and the
/// number of the file to the questions, to the letter, and there is one question
/// and as many more as make up what an upload may ask. A failure ends the upload.
pub proof fn law_upload_steps(
    header: String,
    pow_header: Seq<char>,
    id: String,
    error: CoreError,
    client: ClientError,
)
    ensures
        upload_next(UploadModel::ComputePow, UploadEvent::Pow(Ok(header))) == (
        UploadModel::Upload { pow_header: header@ }),
        upload_next(UploadModel::ComputePow, UploadEvent::Pow(Err(error)))
            == UploadModel::Finished(Err(error@)),
        upload_next(UploadModel::Upload { pow_header }, UploadEvent::Uploaded(Ok(id))) == (
        UploadModel::Fetch { file_id: id@, left: 29 }),
        upload_next(UploadModel::Upload { pow_header }, UploadEvent::Uploaded(Err(client)))
            == UploadModel::Finished(Err(ErrorModel::ProviderError(client.message@))),
{
}

/// The steps of an upload that waits, whatever its file and however often it may
/// still ask: only the first file of an answer counts, a pause follows an answer
/// that decides nothing, and a question follows a pause as long as one is left.
pub proof fn law_upload_questions(
    file_id: Seq<char>,
    left: u32,
    files: Vec<FileInfo>,
    client: ClientError,
)
    ensures
        ({
            let stage = UploadModel::Fetch { file_id, left };
            let answered = upload_next(stage, UploadEvent::Fetched(Ok(files)));
            &&& files@.len() > 0 && files@[0].status@ == "SUCCESS"@ ==> answered
                == UploadModel::Finished(Ok(file_id))
            &&& files@.len() > 0 && files@[0].status@ == "FAILED"@ ==> answered
                == UploadModel::Finished(
                Err(ErrorModel::ProviderError("文件上传失败: "@ + files@[0].file_name@)),
            )
            &&& files@.len() == 0 || (files@[0].status@ != "SUCCESS"@ && files@[0].status@
                != "FAILED"@) ==> answered == (UploadModel::Sleep { file_id, left })
            &&& upload_next(stage, UploadEvent::Fetched(Err(client))) == UploadModel::Finished(
                Err(ErrorModel::ProviderError(client.message@)),
            )
        }),
        left > 0 ==> upload_next(UploadModel::Sleep { file_id, left }, UploadEvent::Woke) == (
        UploadModel::Fetch { file_id, left: (left - 1) as u32 }),
        upload_next(UploadModel::Sleep { file_id, left: 0 }, UploadEvent::Woke)
            == UploadModel::Finished(Err(ErrorModel::ProviderError("文件处理超时"@))),
{
    reveal_strlit("SUCCESS");
    reveal_strlit("FAILED");
    assert("SUCCESS"@.len() != "FAILED"@.len());
}

/// An upload waits for what it asked for: anything else leaves it as it is.
pub proof fn law_upload_waits(stage: UploadModel, event: UploadEvent)
    requires
        !(stage is ComputePow && event is Pow),
        !(stage is Upload && event is Uploaded),
        !(stage is Fetch && event is Fetched),
        !(stage is Sleep && event is Woke),
    ensures
        upload_next(stage, event) == stage,
{
}

/// A stage says what it holds, to the letter.
pub proof fn law_stages_say(
    bytes: Vec<u8>,
    text: String,
    left: u32,
    error: CoreError,
)
    ensures
        SetupStage::FetchWasm@ == SetupModel::FetchWasm,
        (SetupStage::BuildSolver { wasm: bytes })@ == (SetupModel::BuildSolver { wasm: bytes@ }),
        SetupStage::InitPool@ == SetupModel::InitPool,
        SetupStage::Install@ == SetupModel::Install,
        SetupStage::Failed(error)@ == SetupModel::Failed(error@),
        PowStage::Challenge@ == PowModel::Challenge,
        PowStage::Solve@ == PowModel::Solve,
        PowStage::Finished(Ok(text))@ == PowModel::Finished(Ok(text@)),
        PowStage::Finished(Err(error))@ == PowModel::Finished(Err(error@)),
        UploadStage::ComputePow@ == UploadModel::ComputePow,
        (UploadStage::Upload { pow_header: text })@ == (UploadModel::Upload {
            pow_header: text@,
        }),
        (UploadStage::Fetch { file_id: text, left })@ == (UploadModel::Fetch {
            file_id: text@,
            left,
        }),
        (UploadStage::Sleep { file_id: text, left })@ == (UploadModel::Sleep {
            file_id: text@,
            left,
        }),
        UploadStage::Finished(Ok(text))@ == UploadModel::Finished(Ok(text@)),
        UploadStage::Finished(Err(error))@ == UploadModel::Finished(Err(error@)),
{
}

} // verus!
