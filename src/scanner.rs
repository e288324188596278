use expectrl::Needle;
use vstd::prelude::*;
use vstd::string::StringSliceAdditionalSpecFns;

verus! {

/// The text by which a client asks whether to trust an unknown host key.
pub const HOST_TRUST_PROMPT: &'static str = "(yes/no/[fingerprint])";

/// The line sent to accept an unknown host key.
pub const HOST_TRUST_REPLY: &'static str = "yes";

/// Whether `pat` starts at position `i` of `buf` (a position inside `buf`).
pub open spec fn occurs_at(buf: Seq<u8>, pat: Seq<u8>, i: int) -> bool {
    0 <= i < buf.len() && i + pat.len() <= buf.len() && buf.subrange(i, i + pat.len()) == pat
}

/// The first position from `i` on where `pat` starts in `buf`.
pub open spec fn first_from(buf: Seq<u8>, pat: Seq<u8>, i: int) -> Option<int>
    decreases buf.len() - i,
{
    if i < 0 || i >= buf.len() {
        None
    } else if occurs_at(buf, pat, i) {
        Some(i)
    } else {
        first_from(buf, pat, i + 1)
    }
}

/// The first position where `pat` starts in `buf`.
pub open spec fn first_match(buf: Seq<u8>, pat: Seq<u8>) -> Option<int> {
    first_from(buf, pat, 0)
}

/// What `first_from` finds is an occurrence, and none comes before it.
pub proof fn lemma_first_from(buf: Seq<u8>, pat: Seq<u8>, i: int)
    requires
        0 <= i,
    ensures
        match first_from(buf, pat, i) {
            Some(k) => i <= k && occurs_at(buf, pat, k) && forall|j: int|
                i <= j < k ==> !occurs_at(buf, pat, j),
            None => forall|j: int| i <= j ==> !occurs_at(buf, pat, j),
        },
    decreases buf.len() - i,
{
    if i < buf.len() && !occurs_at(buf, pat, i) {
        lemma_first_from(buf, pat, i + 1);
    }
}

/// Relies on expectrl's `Needle` impl for byte slices: it tries each
/// position of the buffer from the first and reports the leftmost one where
/// the needle starts, with the end of that match.
#[verifier::external_body]
fn find_needle(needle: &[u8], buf: &[u8]) -> (r: Option<(usize, usize)>)
    ensures
        match r {
            Some((s, e)) => first_match(buf@, needle@) == Some(s as int) && e == s + needle@.len(),
            None => first_match(buf@, needle@) is None,
        },
{
    match <[u8] as Needle>::check(needle, buf, false) {
        Ok(found) => found.first().map(|m| (m.start(), m.end())),
        Err(_) => None,
    }
}

/// Where authentication stands.
#[derive(Debug, Clone, Copy, PartialEq, Eq, Structural)]
pub enum Phase {
    Scanning,
    /// The password was sent; scanning is over.
    Authenticated,
    /// The output ended before a password prompt appeared.
    AuthFailed,
}

/// What the scanner asks its driver to do next.
#[derive(Debug, PartialEq, Eq, Clone)]
pub enum ScanAction {
    /// Send this line to accept the host key.
    AcknowledgeHostTrust(String),
    /// Send this line, the credential; authentication is then complete.
    SubmitPassword(String),
    /// Read more output, or report that it ended.
    AwaitOutput,
    /// The output ended without a password prompt.
    PromptNotFound,
    /// Authentication is complete; nothing more to send.
    Done,
}

/// The mathematical value of a `ScanAction`.
pub enum Action {
    Acknowledge(Seq<char>),
    Submit(Seq<char>),
    Await,
    NotFound,
    Done,
}

impl View for ScanAction {
    type V = Action;

    open spec fn view(&self) -> Action {
        match self {
            ScanAction::AcknowledgeHostTrust(l) => Action::Acknowledge(l@),
            ScanAction::SubmitPassword(p) => Action::Submit(p@),
            ScanAction::AwaitOutput => Action::Await,
            ScanAction::PromptNotFound => Action::NotFound,
            ScanAction::Done => Action::Done,
        }
    }
}

/// Watches a child's output for the host-trust and password prompts, in
/// that order of precedence, and says what to send in reply.
pub struct Scanner {
    host: Vec<u8>,
    prompt: Vec<u8>,
    password: String,
    window: Vec<u8>,
    eof: bool,
    phase: Phase,
}

/// The mathematical value of a `Scanner`: the two triggers, the credential,
/// the output not yet consumed by a match, whether the output has ended,
/// and the phase.
pub struct ScanState {
    pub host: Seq<u8>,
    pub prompt: Seq<u8>,
    pub password: Seq<char>,
    pub window: Seq<u8>,
    pub eof: bool,
    pub phase: Phase,
}

impl View for Scanner {
    type V = ScanState;

    closed spec fn view(&self) -> ScanState {
        ScanState {
            host: self.host@,
            prompt: self.prompt@,
            password: self.password@,
            window: self.window@,
            eof: self.eof,
            phase: self.phase,
        }
    }
}

pub open spec fn with_window(m: ScanState, w: Seq<u8>, phase: Phase, password: Seq<char>) -> ScanState {
    ScanState { host: m.host, prompt: m.prompt, password, window: w, eof: m.eof, phase }
}

/// One step of the scanner: the rules are tried in order on the whole
/// window, first match wins, and the output up to the end of a match is
/// consumed. The credential is dropped once sent.
pub open spec fn next_state(m: ScanState) -> (ScanState, Action) {
    if m.phase is Authenticated {
        (m, Action::Done)
    } else if m.phase is AuthFailed {
        (m, Action::NotFound)
    } else {
        match first_match(m.window, m.host) {
            Some(s) => (
                with_window(m, m.window.skip(s + m.host.len()), Phase::Scanning, m.password),
                Action::Acknowledge(HOST_TRUST_REPLY@),
            ),
            None => match first_match(m.window, m.prompt) {
                Some(s) => (
                    with_window(
                        m,
                        m.window.skip(s + m.prompt.len()),
                        Phase::Authenticated,
                        Seq::empty(),
                    ),
                    Action::Submit(m.password),
                ),
                None => if m.eof {
                    (with_window(m, m.window, Phase::AuthFailed, m.password), Action::NotFound)
                } else {
                    (m, Action::Await)
                },
            },
        }
    }
}

/// The actions of `n` steps without new output.
pub open spec fn actions(m: ScanState, n: nat) -> Seq<Action>
    decreases n,
{
    if n == 0 {
        Seq::empty()
    } else {
        seq![next_state(m).1] + actions(next_state(m).0, (n - 1) as nat)
    }
}

/// The state after `n` steps without new output.
pub open spec fn state_after(m: ScanState, n: nat) -> ScanState
    decreases n,
{
    if n == 0 {
        m
    } else {
        state_after(next_state(m).0, (n - 1) as nat)
    }
}

/// An occurrence in a suffix is an occurrence in the whole.
proof fn lemma_occurs_in_skip(w: Seq<u8>, pat: Seq<u8>, e: int, j: int)
    requires
        0 <= e <= w.len(),
        occurs_at(w.skip(e), pat, j),
    ensures
        occurs_at(w, pat, j + e),
{
    assert(w.skip(e).subrange(j, j + pat.len()) =~= w.subrange(j + e, j + e + pat.len()));
}

/// Output that holds the host-trust text and, later, the password prompt
/// yields one host-key acknowledgement and then the credential, in that
/// order, after which nothing more is sent. `a` is what comes before the
/// host-trust text (where it does not yet start), `b` what lies between the
/// two (holding neither), `c` what follows.
pub proof fn law_host_trust_then_password(m: ScanState, a: Seq<u8>, b: Seq<u8>, c: Seq<u8>)
    requires
        m.phase == Phase::Scanning,
        m.window == a + m.host + b + m.prompt + c,
        first_match(m.window, m.host) == Some(a.len() as int),
        first_match(b + m.prompt + c, m.host) is None,
        first_match(b + m.prompt + c, m.prompt) == Some(b.len() as int),
    ensures
        actions(m, 3) == seq![
            Action::Acknowledge(HOST_TRUST_REPLY@),
            Action::Submit(m.password),
            Action::Done,
        ],
        state_after(m, 2).phase == Phase::Authenticated,
        state_after(m, 2).window == c,
        forall|n: nat| n >= 2 ==> #[trigger] state_after(m, n) == state_after(m, 2),
{
    let m1 = next_state(m).0;
    assert(m.window.skip((a.len() + m.host.len()) as int) =~= b + m.prompt + c);
    assert(m1.window == b + m.prompt + c);
    let m2 = next_state(m1).0;
    assert((b + m.prompt + c).skip((b.len() + m.prompt.len()) as int) =~= c);
    assert(m2.phase == Phase::Authenticated);
    assert(state_after(m2, 0) == m2);
    assert(state_after(m1, 1) == m2);
    assert(state_after(m, 2) == m2);
    assert(actions(m2, 0) =~= Seq::<Action>::empty());
    assert(actions(m2, 1) =~= seq![Action::Done]);
    assert(actions(m1, 2) =~= seq![Action::Submit(m.password), Action::Done]);
    assert(actions(m, 3) =~= seq![
        Action::Acknowledge(HOST_TRUST_REPLY@),
        Action::Submit(m.password),
        Action::Done,
    ]);
    assert forall|n: nat| n >= 2 implies #[trigger] state_after(m, n) == state_after(m, 2) by {
        lemma_authenticated_stays(m2, (n - 2) as nat);
        assert(state_after(m, n) == state_after(m1, (n - 1) as nat));
    }
}

proof fn lemma_authenticated_stays(m: ScanState, n: nat)
    requires
        m.phase == Phase::Authenticated,
    ensures
        state_after(m, n) == m,
    decreases n,
{
    if n > 0 {
        lemma_authenticated_stays(m, (n - 1) as nat);
    }
}

/// Output that has ended without the password prompt never yields the
/// credential, however many steps are taken; once no host-trust text is
/// left, the scanner reports that no prompt was found. With a non-empty
/// host-trust text, it reports so within one step more than the output's
/// length.
pub proof fn law_no_prompt_no_password(m: ScanState, n: nat)
    requires
        m.phase == Phase::Scanning,
        m.eof,
        first_match(m.window, m.prompt) is None,
    ensures
        forall|k: int| 0 <= k < actions(m, n).len() ==> !(#[trigger] actions(m, n)[k] is Submit),
        state_after(m, n).phase != Phase::Authenticated,
        first_match(m.window, m.host) is None ==> next_state(m).1 == Action::NotFound,
        m.host.len() > 0 && n > m.window.len() ==> state_after(m, n).phase == Phase::AuthFailed,
    decreases n,
{
    if n > 0 {
        let m1 = next_state(m).0;
        match first_match(m.window, m.host) {
            Some(s) => {
                lemma_first_from(m.window, m.host, 0);
                let e = s + m.host.len();
                lemma_first_from(m.window, m.prompt, 0);
                lemma_first_from(m1.window, m.prompt, 0);
                if first_match(m1.window, m.prompt) is Some {
                    let j = first_match(m1.window, m.prompt).unwrap();
                    lemma_occurs_in_skip(m.window, m.prompt, e, j);
                }
                law_no_prompt_no_password(m1, (n - 1) as nat);
            },
            None => {
                lemma_failed_stays(m1, (n - 1) as nat);
            },
        }
        assert(actions(m, n) == seq![next_state(m).1] + actions(m1, (n - 1) as nat));
    }
}

proof fn lemma_failed_stays(m: ScanState, n: nat)
    requires
        m.phase == Phase::AuthFailed,
    ensures
        state_after(m, n) == m,
        forall|k: int| 0 <= k < actions(m, n).len() ==> #[trigger] actions(m, n)[k] == Action::NotFound,
    decreases n,
{
    if n > 0 {
        lemma_failed_stays(m, (n - 1) as nat);
    }
}

/// The bytes from `from` on.
fn tail_of(v: &Vec<u8>, from: usize) -> (r: Vec<u8>)
    requires
        from <= v@.len(),
    ensures
        r@ == v@.skip(from as int),
{
    let mut r: Vec<u8> = Vec::new();
    let mut k: usize = from;
    while k < v.len()
        invariant
            from <= k <= v@.len(),
            r@ == v@.subrange(from as int, k as int),
        decreases v@.len() - k,
    {
        r.push(v[k]);
        k = k + 1;
    }
    r
}

impl Scanner {
    /// A scanner that looks for `prompt` as the password prompt and will
    /// submit `password`.
    pub fn new(prompt: &str, password: String) -> (r: Scanner)
        ensures
            r@ == (ScanState {
                host: HOST_TRUST_PROMPT.spec_bytes(),
                prompt: prompt.spec_bytes(),
                password: password@,
                window: Seq::empty(),
                eof: false,
                phase: Phase::Scanning,
            }),
    {
        Scanner {
            host: HOST_TRUST_PROMPT.as_bytes_vec(),
            prompt: prompt.as_bytes_vec(),
            password,
            window: Vec::new(),
            eof: false,
            phase: Phase::Scanning,
        }
    }

    pub fn phase(&self) -> (r: Phase)
        ensures
            r == self@.phase,
    {
        self.phase
    }

    /// Appends output read from the child to the window.
    pub fn feed(&mut self, data: &[u8])
        ensures
            final(self)@ == with_window(
                old(self)@,
                old(self)@.window + data@,
                old(self)@.phase,
                old(self)@.password,
            ),
    {
        self.window.extend_from_slice(data);
        assert(self.window@ =~= old(self).window@ + data@);
    }

    /// Records that the child's output has ended.
    pub fn end_of_output(&mut self)
        ensures
            final(self)@ == (ScanState { eof: true, ..old(self)@ }),
    {
        self.eof = true;
    }

    /// Takes one step: the action to perform, with the state updated.
    pub fn next_action(&mut self) -> (r: ScanAction)
        ensures
            (final(self)@, r@) == next_state(old(self)@),
    {
        if self.phase == Phase::Authenticated {
            return ScanAction::Done;
        }
        if self.phase == Phase::AuthFailed {
            return ScanAction::PromptNotFound;
        }
        match find_needle(self.host.as_slice(), self.window.as_slice()) {
            Some((_, end)) => {
                proof {
                    lemma_first_from(self.window@, self.host@, 0);
                }
                self.window = tail_of(&self.window, end);
                proof {
                    reveal_strlit("yes");
                }
                return ScanAction::AcknowledgeHostTrust(String::from_str(HOST_TRUST_REPLY));
            },
            None => {},
        }
        match find_needle(self.prompt.as_slice(), self.window.as_slice()) {
            Some((_, end)) => {
                proof {
                    lemma_first_from(self.window@, self.prompt@, 0);
                }
                self.window = tail_of(&self.window, end);
                self.phase = Phase::Authenticated;
                let password = self.password.clone();
                self.password = String::new();
                ScanAction::SubmitPassword(password)
            },
            None => {
                if self.eof {
                    self.phase = Phase::AuthFailed;
                    ScanAction::PromptNotFound
                } else {
                    ScanAction::AwaitOutput
                }
            },
        }
    }
}

} // verus!
