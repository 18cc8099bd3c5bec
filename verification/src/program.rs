use crate::base58::base58_of;
use vstd::prelude::*;

verus! {

/// The identifier a program is deployed under: a fixed 32-byte value,
/// shown to callers and in log output as base-58 text.
pub struct ProgramId {
    pub bytes: Vec<u8>,
}

impl View for ProgramId {
    type V = Seq<u8>;

    open spec fn view(&self) -> Seq<u8> {
        self.bytes@
    }
}

impl ProgramId {
    /// A program identifier is well formed when it holds exactly 32 bytes.
    pub open spec fn wf(&self) -> bool {
        self.bytes@.len() == 32
    }

    /// The base-58 text under which callers address this identifier.
    pub fn text(&self) -> (s: String)
        ensures
            s@ == base58_of(self@),
    {
        crate::base58::base58_encode(&self.bytes)
    }
}

/// The accounts the `initialize` instruction asks its callers for: none.
/// There is nothing to validate, so every value of this struct is valid.
pub struct Initialize {}

/// What the host runtime hands an instruction: the identifier the program is
/// deployed under, and the instruction's (empty) account list.
pub struct Context {
    pub program_id: ProgramId,
    pub accounts: Initialize,
}

impl Context {
    /// A context is well formed when its program identifier is.
    pub open spec fn wf(&self) -> bool {
        self.program_id.wf()
    }
}

/// The 32 bytes of the identifier this program is deployed under, fixed at
/// build time.
pub open spec fn declared_id_bytes() -> Seq<u8> {
    seq![
        255u8, 68u8, 104u8, 60u8, 3u8, 80u8, 208u8, 71u8,
        173u8, 195u8, 93u8, 12u8, 138u8, 142u8, 76u8, 52u8,
        115u8, 163u8, 149u8, 14u8, 80u8, 237u8, 239u8, 241u8,
        166u8, 66u8, 142u8, 9u8, 152u8, 0u8, 75u8, 119u8,
    ]
}

/// The identifier this program is deployed under.
pub fn declared_id() -> (id: ProgramId)
    ensures
        id@ == declared_id_bytes(),
        id.wf(),
{
    let bytes: Vec<u8> = vec![
        255u8, 68u8, 104u8, 60u8, 3u8, 80u8, 208u8, 71u8,
        173u8, 195u8, 93u8, 12u8, 138u8, 142u8, 76u8, 52u8,
        115u8, 163u8, 149u8, 14u8, 80u8, 237u8, 239u8, 241u8,
        166u8, 66u8, 142u8, 9u8, 152u8, 0u8, 75u8, 119u8,
    ];
    proof {
        assert(bytes@ =~= declared_id_bytes());
    }
    ProgramId { bytes }
}

/// The one log line `initialize` emits: a fixed greeting followed by the
/// base-58 text of the program's identifier, and nothing else.
pub open spec fn greeting_text(id: Seq<u8>) -> Seq<char> {
    "Greetings from: "@ + base58_of(id)
}

/// Renders the log line for a program identifier.
pub fn greeting(id: &ProgramId) -> (s: String)
    ensures
        s@ == greeting_text(id@),
{
    let mut s: String = String::from_str("Greetings from: ");
    let enc: String = id.text();
    s.append(enc.as_str());
    s
}

/// The `initialize` instruction: the program's single entry point. It
/// performs no validation, touches no state and cannot fail; its only
/// output besides success is the log line for the host to write, naming
/// this program's identifier.
pub fn initialize(ctx: &Context) -> (r: Result<String, ()>)
    ensures
        r is Ok,
        r matches Ok(log) ==> log@ == greeting_text(ctx.program_id@),
{
    Ok(greeting(&ctx.program_id))
}

/// The emitted log line carries the program's own identifier and no other
/// dynamic content: a fixed 16-character prefix, then exactly the base-58
/// text of the identifier.
pub proof fn lemma_log_line_shape(id: Seq<u8>)
    ensures
        greeting_text(id).len() == 16 + base58_of(id).len(),
        greeting_text(id).take(16) == "Greetings from: "@,
        greeting_text(id).skip(16) == base58_of(id),
{
    reveal_strlit("Greetings from: ");
    assert(greeting_text(id).take(16) =~= "Greetings from: "@);
    assert(greeting_text(id).skip(16) =~= base58_of(id));
}

/// Repeated invocations are idempotent: the program holds no state, and the
/// log line `initialize` is specified to return depends on the context
/// alone, so any two invocations on the same context emit the same line.
pub proof fn lemma_initialize_idempotent(ctx: &Context, log1: Seq<char>, log2: Seq<char>)
    requires
        log1 == greeting_text(ctx.program_id@),
        log2 == greeting_text(ctx.program_id@),
    ensures
        log1 == log2,
{
}

} // verus!
