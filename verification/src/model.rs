//! The model abstraction that the serving stack runs against, and a small
//! deterministic model.
//!
//! A logit is a single-precision floating point number. The library carries it
//! as its IEEE 754 bit pattern, which is all that greedy decoding needs: the
//! order of two numbers can be read off their patterns.
use vstd::prelude::*;

verus! {

/// A token identifier.
pub type TokenId = u32;

/// The bit pattern of a single-precision logit, as `f32::to_bits` gives it.
pub type LogitBits = u32;

/// The pattern of negative infinity.
pub const NEG_INFINITY: LogitBits = 0xFF80_0000;

/// Whether a pattern is not a number.
pub open spec fn is_nan(b: LogitBits) -> bool {
    b % 0x8000_0000 > 0x7F80_0000
}

/// Where a pattern stands among the numbers: the magnitude, negated if the sign
/// bit is set. Both zeros stand at zero.
pub open spec fn rank(b: LogitBits) -> int {
    if b < 0x8000_0000 {
        b as int
    } else {
        0x8000_0000 - b
    }
}

/// The floating point comparison `a > b`, which is false if either side is not
/// a number.
pub open spec fn exceeds(a: LogitBits, b: LogitBits) -> bool {
    !is_nan(a) && !is_nan(b) && rank(a) > rank(b)
}

fn bits_exceed(a: LogitBits, b: LogitBits) -> (r: bool)
    ensures
        r == exceeds(a, b),
{
    let nan_a: bool = a % 0x8000_0000 > 0x7F80_0000;
    let nan_b: bool = b % 0x8000_0000 > 0x7F80_0000;
    if nan_a || nan_b {
        false
    } else if a < 0x8000_0000 {
        if b < 0x8000_0000 {
            a > b
        } else {
            a > 0 || b > 0x8000_0000
        }
    } else {
        b > 0x8000_0000 && a < b
    }
}

/// Whether some logit is a number above negative infinity.
pub open spec fn has_candidate(logits: Seq<LogitBits>) -> bool {
    exists|k: int| 0 <= k < logits.len() && exceeds(#[trigger] logits[k], NEG_INFINITY)
}

/// Whether `i` is the first position of the greatest logit. Without a candidate
/// the first position is meant.
pub open spec fn is_argmax(logits: Seq<LogitBits>, i: int) -> bool {
    if has_candidate(logits) {
        &&& 0 <= i < logits.len()
        &&& exceeds(logits[i], NEG_INFINITY)
        &&& forall|j: int| 0 <= j < logits.len() ==> !exceeds(#[trigger] logits[j], logits[i])
        &&& forall|j: int|
            0 <= j < i && !is_nan(#[trigger] logits[j]) ==> exceeds(logits[i], logits[j])
    } else {
        i == 0
    }
}

pub open spec fn argmax_index(logits: Seq<LogitBits>) -> int {
    choose|i: int| is_argmax(logits, i)
}

/// The greedy token: the position of the greatest logit, as a token id.
pub open spec fn argmax(logits: Seq<LogitBits>) -> TokenId {
    (argmax_index(logits) % 0x1_0000_0000) as TokenId
}

/// There is only one such position.
pub proof fn lemma_argmax_unique(logits: Seq<LogitBits>, i: int)
    requires
        is_argmax(logits, i),
    ensures
        i == argmax_index(logits),
{
    let k = argmax_index(logits);
    assert(is_argmax(logits, k));
    if has_candidate(logits) {
        assert(!is_nan(logits[i]) && !is_nan(logits[k]));
    }
}

/// Every list of logits has such a position: greedy decoding picks the first of
/// the greatest logits.
pub proof fn law_greatest_logit_exists(logits: Seq<LogitBits>)
    ensures
        is_argmax(logits, argmax_index(logits)),
        logits.len() > 0 ==> 0 <= argmax_index(logits) < logits.len(),
{
    if has_candidate(logits) {
        let i = lemma_greatest(logits, logits.len() as int);
        assert(is_argmax(logits, i));
    } else {
        assert(is_argmax(logits, 0));
    }
}

/// The first position of the greatest of the first `n` logits.
proof fn lemma_greatest(logits: Seq<LogitBits>, n: int) -> (i: int)
    requires
        0 <= n <= logits.len(),
        exists|k: int| 0 <= k < n && exceeds(#[trigger] logits[k], NEG_INFINITY),
    ensures
        0 <= i < n,
        exceeds(logits[i], NEG_INFINITY),
        forall|j: int| 0 <= j < n ==> !exceeds(#[trigger] logits[j], logits[i]),
        forall|j: int| 0 <= j < i && !is_nan(#[trigger] logits[j]) ==> exceeds(
            logits[i],
            logits[j],
        ),
    decreases n,
{
    let m = n - 1;
    if exists|k: int| 0 <= k < m && exceeds(#[trigger] logits[k], NEG_INFINITY) {
        let i = lemma_greatest(logits, m);
        if exceeds(logits[m], logits[i]) {
            m
        } else {
            i
        }
    } else {
        m
    }
}

/// The result of a single forward step for one sequence: the next-token logits.
#[derive(Clone, Debug)]
pub struct StepLogits {
    pub logits: Vec<LogitBits>,
}

impl StepLogits {
    /// The greedy argmax over the logits. Ties break towards the lower id.
    pub fn argmax(&self) -> (r: TokenId)
        ensures
            r == argmax(self.logits@),
            is_argmax(self.logits@, argmax_index(self.logits@)),
    {
        let mut best: usize = 0;
        let mut best_v: LogitBits = NEG_INFINITY;
        let mut i: usize = 0;
        while i < self.logits.len()
            invariant
                i <= self.logits@.len(),
                !is_nan(best_v),
                best_v == NEG_INFINITY ==> best == 0 && forall|j: int|
                    0 <= j < i ==> !exceeds(#[trigger] self.logits@[j], NEG_INFINITY),
                best_v != NEG_INFINITY ==> {
                    &&& best < i
                    &&& self.logits@[best as int] == best_v
                    &&& exceeds(best_v, NEG_INFINITY)
                    &&& forall|j: int| 0 <= j < i ==> !exceeds(#[trigger] self.logits@[j], best_v)
                    &&& forall|j: int|
                        0 <= j < best && !is_nan(#[trigger] self.logits@[j]) ==> exceeds(
                            best_v,
                            self.logits@[j],
                        )
                },
            decreases self.logits@.len() - i,
        {
            let v: LogitBits = self.logits[i];
            if bits_exceed(v, best_v) {
                best_v = v;
                best = i;
            }
            i = i + 1;
        }
        let wide: u64 = best as u64;
        proof {
            assert(is_argmax(self.logits@, best as int));
            lemma_argmax_unique(self.logits@, best as int);
            assert(wide as u32 == wide % 0x1_0000_0000) by (bit_vector);
        }
        #[verifier::truncate]
        (wide as TokenId)
    }
}

/// The contract every model implements. The serving stack only ever talks to
/// this trait.
///
/// A verified model defines the spec functions. A backend in plain Rust leaves
/// them out and implements the four methods: it owes a `forward` that is a
/// function of the context and returns `vocab_size` logits.
pub trait Model: Send + Sync {
    /// The size of the vocabulary.
    closed spec fn vocab(&self) -> nat {
        arbitrary()
    }

    /// The number of transformer layers.
    closed spec fn layers(&self) -> nat {
        arbitrary()
    }

    /// The id that ends a sequence.
    closed spec fn eos(&self) -> TokenId {
        arbitrary()
    }

    /// The contexts that a forward pass is defined on.
    closed spec fn accepts(&self, context: Seq<TokenId>) -> bool {
        arbitrary()
    }

    /// The logits that follow a context.
    closed spec fn next_logits(&self, context: Seq<TokenId>) -> Seq<LogitBits> {
        arbitrary()
    }

    /// The size of the vocabulary. Logits vectors always have this length.
    fn vocab_size(&self) -> (r: usize)
        ensures
            r == self.vocab(),
    ;

    /// The number of transformer layers.
    fn num_layers(&self) -> (r: usize)
        ensures
            r == self.layers(),
    ;

    /// The id used to signal end of sequence.
    fn eos_token(&self) -> (r: TokenId)
        ensures
            r == self.eos(),
    ;

    /// Run a forward pass over a context and return the logits for the position
    /// that follows the last context token.
    fn forward(&self, context: &[TokenId]) -> (r: StepLogits)
        requires
            self.accepts(context@),
        ensures
            r.logits@ == self.next_logits(context@),
            r.logits@.len() == self.vocab(),
    ;
}

/// The token that greedy decoding emits after a context.
pub open spec fn next_token<M: Model + ?Sized>(model: &M, context: Seq<TokenId>) -> TokenId {
    argmax(model.next_logits(context))
}

/// Whether a model can continue a context however far it has grown.
pub open spec fn serves<M: Model + ?Sized>(model: &M, context: Seq<TokenId>) -> bool {
    forall|more: Seq<TokenId>| #[trigger] model.accepts(context + more)
}

/// Greedy decoding of at most `limit` tokens that stops after the
/// end-of-sequence token: the continuation of `done` tokens already emitted.
pub open spec fn greedy_from<M: Model + ?Sized>(
    model: &M,
    prompt: Seq<TokenId>,
    done: Seq<TokenId>,
    limit: nat,
) -> Seq<TokenId>
    decreases limit - done.len(),
{
    if done.len() >= limit {
        done
    } else {
        let token = next_token(model, prompt + done);
        if token == model.eos() {
            done.push(token)
        } else {
            greedy_from(model, prompt, done.push(token), limit)
        }
    }
}

/// What a request for at most `limit` tokens is owed: greedy decoding of its
/// prompt up to the limit or the end-of-sequence token.
pub open spec fn completion<M: Model + ?Sized>(
    model: &M,
    prompt: Seq<TokenId>,
    limit: nat,
) -> Seq<TokenId> {
    greedy_from(model, prompt, Seq::empty(), limit)
}

/// Compare two token lists.
pub fn same_tokens(a: &[TokenId], b: &[TokenId]) -> (r: bool)
    ensures
        r == (a@ == b@),
{
    if a.len() != b.len() {
        return false;
    }
    let mut i: usize = 0;
    while i < a.len()
        invariant
            i <= a@.len(),
            a@.len() == b@.len(),
            forall|j: int| 0 <= j < i ==> a@[j] == b@[j],
        decreases a@.len() - i,
    {
        if a[i] != b[i] {
            return false;
        }
        i = i + 1;
    }
    assert(a@ =~= b@);
    true
}

/// The tokens of two lists, one after the other.
pub fn join_tokens(a: &[TokenId], b: &[TokenId]) -> (r: Vec<TokenId>)
    ensures
        r@ == a@ + b@,
{
    let mut r: Vec<TokenId> = Vec::new();
    r.extend_from_slice(a);
    r.extend_from_slice(b);
    assert(r@ =~= a@ + b@);
    r
}

/// The seed of every [`TinyTransformer`].
pub const SEED: u64 = 0x9E37_79B9_7F4A_7C15;

/// One token of the trailing window mixed into the hash.
pub open spec fn mix(h: u64, pos: nat, token: TokenId) -> u64 {
    let a = h ^ (token as u64).wrapping_add(((0x9E37_79B9 + pos) as u64) << 6);
    let b = a.wrapping_mul(0xBF58_476D_1CE4_E5B9);
    b ^ (b >> 27)
}

/// A window of tokens mixed into the hash, first to last.
pub open spec fn mix_window(h: u64, window: Seq<TokenId>) -> u64
    decreases window.len(),
{
    if window.len() == 0 {
        h
    } else {
        mix(mix_window(h, window.drop_last()), (window.len() - 1) as nat, window.last())
    }
}

/// The last eight tokens of a context, or all of them if there are fewer.
pub open spec fn window_of(context: Seq<TokenId>) -> Seq<TokenId> {
    context.skip(
        if context.len() > 8 {
            context.len() - 8
        } else {
            0
        },
    )
}

/// The hash of a context: its trailing window, mixed and finished.
pub open spec fn hash_of(seed: u64, context: Seq<TokenId>) -> u64 {
    let a = mix_window(seed, window_of(context)).wrapping_mul(0x94D0_49BB_1331_11EB);
    a ^ (a >> 31)
}

/// The pattern of `6 - d` for a distance `d` from the peak, which counts up to
/// eight.
pub open spec fn level(d: nat) -> LogitBits {
    if d == 0 {
        0x40C0_0000
    } else if d == 1 {
        0x40A0_0000
    } else if d == 2 {
        0x4080_0000
    } else if d == 3 {
        0x4040_0000
    } else if d == 4 {
        0x4000_0000
    } else if d == 5 {
        0x3F80_0000
    } else if d == 6 {
        0x0000_0000
    } else if d == 7 {
        0xBF80_0000
    } else {
        0xC000_0000
    }
}

/// The distance between two positions.
pub open spec fn distance(i: int, j: int) -> nat {
    if i < j {
        (j - i) as nat
    } else {
        (i - j) as nat
    }
}

/// The logits of a vocabulary whose peak is at `peak`, with one token ruled out.
pub open spec fn peaked(vocab: nat, peak: int, ruled_out: Option<TokenId>) -> Seq<LogitBits> {
    Seq::new(
        vocab,
        |i: int|
            match ruled_out {
                Some(t) if t == i => NEG_INFINITY,
                _ => level(distance(i, peak)),
            },
    )
}

/// The continuations pinned by a list, where a later entry replaces an earlier
/// one.
pub open spec fn pins_of(list: Seq<(Vec<TokenId>, TokenId)>) -> Map<Seq<TokenId>, TokenId>
    decreases list.len(),
{
    if list.len() == 0 {
        Map::empty()
    } else {
        pins_of(list.drop_last()).insert(list.last().0@, list.last().1)
    }
}

/// A [`TinyTransformer`] as mathematics.
#[verifier::ext_equal]
pub struct TinyView {
    pub vocab: nat,
    pub layers: nat,
    pub eos: TokenId,
    pub seed: u64,
    /// A draft shifts its peak whenever the hash is a multiple of this.
    pub divergence: Option<u8>,
    pub pins: Map<Seq<TokenId>, TokenId>,
}

impl TinyView {
    /// Whether a draft leaves the target's peak on a context.
    pub open spec fn diverges(self, context: Seq<TokenId>) -> bool {
        let h = hash_of(self.seed, context);
        match self.divergence {
            Some(period) => if period == 0 {
                h == 0
            } else {
                h % (period as u64) == 0
            },
            None => false,
        }
    }

    /// The token that the logits peak at.
    pub open spec fn peak(self, context: Seq<TokenId>) -> int {
        let base = (hash_of(self.seed, context) as int) % (self.vocab as int);
        if self.pins.contains_key(context) {
            (self.pins[context] as int) % (self.vocab as int)
        } else if self.diverges(context) {
            (base + 7) % (self.vocab as int)
        } else {
            base
        }
    }

    /// A context of fewer than four tokens rules out the end of the sequence.
    pub open spec fn ruled_out(self, context: Seq<TokenId>) -> Option<TokenId> {
        if context.len() < 4 {
            Some(self.eos)
        } else {
            None
        }
    }

    pub open spec fn accepts(self, context: Seq<TokenId>) -> bool {
        0 < self.vocab && (context.len() < 4 ==> self.eos < self.vocab)
    }

    pub open spec fn next_logits(self, context: Seq<TokenId>) -> Seq<LogitBits> {
        peaked(self.vocab, self.peak(context), self.ruled_out(context))
    }
}

/// A small fixed-weight model.
///
/// The map from a context to the next token is a deterministic hash of the
/// trailing context window.
pub struct TinyTransformer {
    vocab: usize,
    layers: usize,
    eos: TokenId,
    seed: u64,
    draft_divergence: Option<u8>,
    /// Known continuations of known contexts, the latest last.
    pinned: Vec<(Vec<TokenId>, TokenId)>,
}

impl View for TinyTransformer {
    type V = TinyView;

    closed spec fn view(&self) -> TinyView {
        TinyView {
            vocab: self.vocab as nat,
            layers: self.layers as nat,
            eos: self.eos,
            seed: self.seed,
            divergence: self.draft_divergence,
            pins: pins_of(self.pinned@),
        }
    }
}

fn level_bits(d: usize) -> (r: LogitBits)
    ensures
        r == level(d as nat),
{
    match d {
        0 => 0x40C0_0000,
        1 => 0x40A0_0000,
        2 => 0x4080_0000,
        3 => 0x4040_0000,
        4 => 0x4000_0000,
        5 => 0x3F80_0000,
        6 => 0x0000_0000,
        7 => 0xBF80_0000,
        _ => 0xC000_0000,
    }
}

impl TinyTransformer {
    pub fn new(vocab: usize, layers: usize) -> (r: Self)
        ensures
            r@ == (TinyView {
                vocab: vocab as nat,
                layers: layers as nat,
                eos: 0,
                seed: SEED,
                divergence: None,
                pins: Map::empty(),
            }),
    {
        TinyTransformer {
            vocab,
            layers,
            eos: 0,
            seed: SEED,
            draft_divergence: None,
            pinned: Vec::new(),
        }
    }

    /// A draft model for the target built with [`TinyTransformer::new`] using
    /// the same vocabulary. It diverges on the contexts whose hash is a multiple
    /// of four.
    pub fn draft(vocab: usize, layers: usize) -> (r: Self)
        ensures
            r@ == (TinyView {
                vocab: vocab as nat,
                layers: layers as nat,
                eos: 0,
                seed: SEED,
                divergence: Some(4),
                pins: Map::empty(),
            }),
    {
        let mut m = TinyTransformer::new(vocab, layers);
        m.draft_divergence = Some(4);
        m
    }

    pub fn with_eos(self, eos: TokenId) -> (r: Self)
        ensures
            r@ == (TinyView { eos, ..self@ }),
    {
        let mut m = self;
        m.eos = eos;
        m
    }

    /// Pin a `(context -> next token)` mapping.
    pub fn pin(&mut self, context: Vec<TokenId>, next: TokenId)
        ensures
            final(self)@ == (TinyView {
                pins: old(self)@.pins.insert(context@, next),
                ..old(self)@
            }),
    {
        let ghost before = self.pinned@;
        self.pinned.push((context, next));
        assert(self.pinned@.drop_last() =~= before);
    }

    /// The token pinned to a context.
    fn pinned_to(&self, context: &[TokenId]) -> (r: Option<TokenId>)
        ensures
            match r {
                Some(t) => self@.pins.contains_key(context@) && self@.pins[context@] == t,
                None => !self@.pins.contains_key(context@),
            },
    {
        let mut n: usize = self.pinned.len();
        assert(self.pinned@.take(n as int) =~= self.pinned@);
        while n > 0
            invariant
                n <= self.pinned@.len(),
                pins_of(self.pinned@.take(n as int)).contains_key(context@) == self@.pins.contains_key(
                    context@,
                ),
                self@.pins.contains_key(context@) ==> pins_of(
                    self.pinned@.take(n as int),
                )[context@] == self@.pins[context@],
            decreases n,
        {
            assert(self.pinned@.take(n as int).drop_last() =~= self.pinned@.take(n - 1));
            if same_tokens(self.pinned[n - 1].0.as_slice(), context) {
                return Some(self.pinned[n - 1].1);
            }
            n = n - 1;
        }
        None
    }

    /// A small splitmix-style mix over a trailing window.
    pub fn hash_context(&self, context: &[TokenId]) -> (r: u64)
        ensures
            r == hash_of(self@.seed, context@),
    {
        let start: usize = if context.len() > 8 {
            context.len() - 8
        } else {
            0
        };
        let count: usize = context.len() - start;
        let ghost window = window_of(context@);
        let mut h: u64 = self.seed;
        let mut pos: usize = 0;
        assert(window.take(0) =~= Seq::empty());
        while pos < count
            invariant
                start == (if context@.len() > 8 {
                    context@.len() - 8
                } else {
                    0
                }),
                count == context@.len() - start <= 8,
                context@.len() <= usize::MAX,
                pos <= count,
                window == window_of(context@),
                h == mix_window(self.seed, window.take(pos as int)),
            decreases count - pos,
        {
            let tok: TokenId = context[start + pos];
            assert(window.take(pos + 1).drop_last() =~= window.take(pos as int));
            assert(window.take(pos + 1).last() == tok);
            h = h ^ (tok as u64).wrapping_add((0x9E37_79B9 + (pos as u64)) << 6);
            h = h.wrapping_mul(0xBF58_476D_1CE4_E5B9);
            h = h ^ (h >> 27);
            pos = pos + 1;
        }
        assert(window.take(pos as int) =~= window);
        h = h.wrapping_mul(0x94D0_49BB_1331_11EB);
        h = h ^ (h >> 31);
        h
    }

    /// The token that the logits peak at.
    fn peak_of(&self, context: &[TokenId]) -> (r: usize)
        requires
            0 < self@.vocab,
        ensures
            r == self@.peak(context@),
            r < self@.vocab,
    {
        let h: u64 = self.hash_context(context);
        match self.pinned_to(context) {
            Some(pinned) => (pinned as usize) % self.vocab,
            None => {
                let base: usize = (h % (self.vocab as u64)) as usize;
                let shifted: bool = match self.draft_divergence {
                    Some(period) => if period == 0 {
                        h == 0
                    } else {
                        h % (period as u64) == 0
                    },
                    None => false,
                };
                if shifted {
                    // `base + 7` need not fit in a `usize`.
                    let step: usize = 7 % self.vocab;
                    proof {
                        let v = self.vocab as int;
                        vstd::arithmetic::div_mod::lemma_add_mod_noop(base as int, 7, v);
                        vstd::arithmetic::div_mod::lemma_small_mod(base as nat, v as nat);
                        if base + step < v {
                            vstd::arithmetic::div_mod::lemma_small_mod((base + step) as nat, v as nat);
                        } else {
                            vstd::arithmetic::div_mod::lemma_small_mod(
                                (base + step - v) as nat,
                                v as nat,
                            );
                            vstd::arithmetic::div_mod::lemma_mod_add_multiples_vanish(
                                base + step - v,
                                v,
                            );
                        }
                    }
                    if base < self.vocab - step {
                        base + step
                    } else {
                        base - (self.vocab - step)
                    }
                } else {
                    base
                }
            },
        }
    }
}

impl Model for TinyTransformer {
    open spec fn vocab(&self) -> nat {
        self@.vocab
    }

    open spec fn layers(&self) -> nat {
        self@.layers
    }

    open spec fn eos(&self) -> TokenId {
        self@.eos
    }

    open spec fn accepts(&self, context: Seq<TokenId>) -> bool {
        self@.accepts(context)
    }

    open spec fn next_logits(&self, context: Seq<TokenId>) -> Seq<LogitBits> {
        self@.next_logits(context)
    }

    fn vocab_size(&self) -> (r: usize) {
        self.vocab
    }

    fn num_layers(&self) -> (r: usize) {
        self.layers
    }

    fn eos_token(&self) -> (r: TokenId) {
        self.eos
    }

    /// Build a peaked distribution: one token gets a large logit, and the
    /// logits of the others fall off with their distance from it.
    fn forward(&self, context: &[TokenId]) -> (r: StepLogits) {
        let peak: usize = self.peak_of(context);
        let mut logits: Vec<LogitBits> = Vec::new();
        let mut i: usize = 0;
        while i < self.vocab
            invariant
                i <= self.vocab,
                logits@ =~= Seq::new(i as nat, |j: int| level(distance(j, peak as int))),
            decreases self.vocab - i,
        {
            let d: usize = if i < peak {
                peak - i
            } else {
                i - peak
            };
            logits.push(level_bits(d));
            i = i + 1;
        }
        // A short prompt always produces visible output.
        if context.len() < 4 {
            logits.set(self.eos as usize, NEG_INFINITY);
        }
        assert(logits@ =~= self@.next_logits(context@));
        StepLogits { logits }
    }
}

} // verus!
