//! Rounds that consist of several levels.

use crate::assoc::Assoc;
use crate::event::ThreadId;
use vstd::prelude::*;
use vstd::string::*;

verus! {

/// Names the levels of a round.
pub trait RoundKey: Copy {
    /// What tells the type from other key types: no two of them have the same number.
    spec fn kind() -> u64;

    /// The number of keys.
    spec fn keys() -> usize;

    /// The number of the key.
    spec fn place(self) -> usize;

    spec fn title(self) -> &'static str;

    fn key_type() -> (k: u64)
        ensures
            k == Self::kind(),
    ;

    fn count() -> (n: usize)
        ensures
            n == Self::keys(),
    ;

    fn index(self) -> (i: usize)
        ensures
            i == self.place(),
    ;

    fn name(self) -> (s: &'static str)
        ensures
            s == self.title(),
    ;
}

/// The bounded steps of a level.
pub trait RoundEnum: Copy {
    /// What tells the type from other step types: no two of them have the same number.
    spec fn kind() -> u64;

    spec fn title() -> &'static str;

    /// The value that the level is reset to.
    spec fn lowest() -> Self;

    /// The number of steps.
    spec fn steps() -> u32;

    spec fn code(self) -> u32;

    spec fn decoded(v: u32) -> Option<Self>;

    /// The codes of all steps.
    spec fn all_codes() -> Seq<u32>;

    /// The codes are the numbers that can be decoded.
    proof fn law_codes_decode()
        ensures
            forall|v: u32| #[trigger]
                Self::all_codes().contains(v) <==> Self::decoded(v) is Some,
    ;

    fn enum_type() -> (k: u64)
        ensures
            k == Self::kind(),
    ;

    fn name() -> (s: &'static str)
        ensures
            s == Self::title(),
    ;

    fn low() -> (e: Self)
        ensures
            e == Self::lowest(),
    ;

    fn size() -> (n: u32)
        ensures
            n == Self::steps(),
    ;

    fn to_u32(self) -> (v: u32)
        ensures
            v == self.code(),
    ;

    fn try_from_u32(v: u32) -> (r: Option<Self>)
        ensures
            r == Self::decoded(v),
    ;

    fn codes() -> (r: Vec<u32>)
        ensures
            r@ == Self::all_codes(),
            forall|v: u32| #[trigger] r@.contains(v) <==> Self::decoded(v) is Some,
    ;
}

/// The step after `e`.
pub open spec fn following<E: RoundEnum>(e: E) -> Option<E> {
    if e.code() == u32::MAX {
        None
    } else {
        E::decoded((e.code() + 1) as u32)
    }
}

/// The step after `e`.
pub fn next<E: RoundEnum>(e: E) -> (r: Option<E>)
    ensures
        r == following(e),
{
    match e.to_u32().checked_add(1) {
        None => None,
        Some(v) => E::try_from_u32(v),
    }
}

/// How a filter judges one level.
#[derive(Clone, Copy, Debug, PartialEq, Eq, Structural, Hash)]
pub enum DefaultMatch {
    Eq,
    Gte,
    Any,
}

/// How rounds are ordered.
#[derive(Clone, Copy, Debug, PartialEq, Eq, Structural, Hash)]
pub enum RoundOrder {
    ComponentWise,
    Lexicographic,
}

/// A round as its numbers, one for each level.
#[derive(Debug, PartialEq, Eq)]
pub struct RoundStamp {
    comps: Vec<u32>,
}

impl View for RoundStamp {
    type V = Seq<u32>;

    closed spec fn view(&self) -> Seq<u32> {
        self.comps@
    }
}

fn copy_words(list: &Vec<u32>) -> (r: Vec<u32>)
    ensures
        r@ == list@,
{
    let mut r: Vec<u32> = Vec::new();
    let mut i: usize = 0;
    while i < list.len()
        invariant
            i <= list@.len(),
            r@ == list@.take(i as int),
        decreases list.len() - i,
    {
        r.push(list[i]);
        i += 1;
    }
    assert(r@ =~= list@);
    r
}

impl RoundStamp {
    pub fn from_components(components: Vec<u32>) -> (s: Self)
        ensures
            s@ == components@,
    {
        RoundStamp { comps: components }
    }

    pub fn components(&self) -> (c: &Vec<u32>)
        ensures
            c@ == self@,
    {
        &self.comps
    }
}

impl Clone for RoundStamp {
    fn clone(&self) -> (r: Self)
        ensures
            r@ == self@,
    {
        RoundStamp { comps: copy_words(&self.comps) }
    }
}

/// Where a thread stands: which thread it is, in which execution of which model checker.
#[derive(Clone, Copy, Debug, PartialEq, Eq, Structural)]
pub struct Place {
    pub tid: ThreadId,
    pub execution_id: u64,
    pub must_id: usize,
}

/// The rounds that the threads of an execution are in.
pub struct RoundState {
    execution_id: Option<u64>,
    must_id: Option<usize>,
    rounds: Assoc<ThreadId, Vec<u32>>,
}

/// Such rounds as the contracts see them.
#[verifier::ext_equal]
pub struct RoundsView {
    pub execution_id: Option<u64>,
    pub must_id: Option<usize>,
    pub rounds: Map<ThreadId, Seq<u32>>,
}

impl View for RoundState {
    type V = RoundsView;

    closed spec fn view(&self) -> RoundsView {
        RoundsView {
            execution_id: self.execution_id,
            must_id: self.must_id,
            rounds: self.rounds@,
        }
    }
}

/// The rounds as a thread at `at` finds them: those of an earlier execution are forgotten.
pub open spec fn synced(s: RoundsView, at: Place) -> RoundsView {
    if s.must_id != Some(at.must_id) || s.execution_id != Some(at.execution_id) {
        RoundsView {
            execution_id: Some(at.execution_id),
            must_id: Some(at.must_id),
            rounds: Map::empty(),
        }
    } else {
        s
    }
}

/// The rounds after the thread at `at` entered the round `stamp`.
pub open spec fn entered(s: RoundsView, at: Place, stamp: Seq<u32>) -> RoundsView {
    let now = synced(s, at);
    RoundsView { rounds: now.rounds.insert(at.tid, stamp), ..now }
}

/// The round that the thread at `at` is in.
pub open spec fn current_of(s: RoundsView, at: Place) -> Option<Seq<u32>> {
    let now = synced(s, at);
    if now.rounds.contains_key(at.tid) {
        Some(now.rounds[at.tid])
    } else {
        None
    }
}

impl RoundState {
    pub fn new() -> (s: Self)
        ensures
            s@ == (RoundsView { execution_id: None, must_id: None, rounds: Map::empty() }),
    {
        RoundState { execution_id: None, must_id: None, rounds: Assoc::new() }
    }

    fn sync(&mut self, at: Place)
        ensures
            final(self)@ == synced(old(self)@, at),
    {
        let same_must = match self.must_id {
            Some(m) => m == at.must_id,
            None => false,
        };
        let same_execution = match self.execution_id {
            Some(e) => e == at.execution_id,
            None => false,
        };
        if !same_must || !same_execution {
            self.must_id = Some(at.must_id);
            self.execution_id = Some(at.execution_id);
            self.rounds.clear();
        }
    }

    /// Lets the thread at `at` enter a round.
    pub fn set_current_round_stamp(&mut self, at: Place, stamp: &RoundStamp)
        ensures
            final(self)@ == entered(old(self)@, at, stamp@),
    {
        self.sync(at);
        self.rounds.insert(at.tid, copy_words(&stamp.comps));
    }

    /// The round that the thread at `at` is in, if it is in one.
    pub fn current_round_stamp_for_send(&mut self, at: Place) -> (r: Option<RoundStamp>)
        ensures
            final(self)@ == synced(old(self)@, at),
            match current_of(old(self)@, at) {
                Some(s) => r matches Some(x) && x@ == s,
                None => r is None,
            },
    {
        self.sync(at);
        match self.rounds.get(&at.tid) {
            Some(words) => Some(RoundStamp { comps: copy_words(words) }),
            None => None,
        }
    }
}

/// The values of a level.
#[derive(Clone, Copy, Debug, PartialEq, Eq, Structural)]
pub enum LevelKind {
    U32,
    Enum { enum_type: u64 },
}

/// A level of a round.
#[derive(Clone, Copy, Debug, PartialEq, Eq)]
pub struct LevelSpec {
    pub key_type: u64,
    pub key_index: u16,
    pub key_name: &'static str,
    pub kind: LevelKind,
    pub low: u32,
}

/// The steps of a level as numbers: each code with that of the step after it.
pub struct EnumCodec {
    pub name: &'static str,
    pub low: u32,
    pub size: u32,
    pub table: Vec<(u32, Option<u32>)>,
}

/// Such steps as the contracts see them.
pub struct CodecView {
    pub name: &'static str,
    pub low: u32,
    pub size: u32,
    pub table: Seq<(u32, Option<u32>)>,
}

impl View for EnumCodec {
    type V = CodecView;

    open spec fn view(&self) -> CodecView {
        CodecView { name: self.name, low: self.low, size: self.size, table: self.table@ }
    }
}

/// Where the code `v` is listed among the first `n`.
pub open spec fn listed_at(table: Seq<(u32, Option<u32>)>, v: u32, n: nat) -> Option<int>
    decreases n,
{
    if n == 0 {
        None
    } else {
        match listed_at(table, v, (n - 1) as nat) {
            Some(i) => Some(i),
            None => if table[n - 1].0 == v {
                Some(n - 1)
            } else {
                None
            },
        }
    }
}

/// Whether `v` is the code of a step.
pub open spec fn is_code(c: CodecView, v: u32) -> bool {
    listed_at(c.table, v, c.table.len()) is Some
}

/// The code after `v`.
pub open spec fn code_after(c: CodecView, v: u32) -> Option<u32> {
    match listed_at(c.table, v, c.table.len()) {
        Some(i) => c.table[i].1,
        None => None,
    }
}

/// The code of the step after that with the code `v`.
pub open spec fn enum_next_code<E: RoundEnum>(v: u32) -> Option<u32> {
    match E::decoded(v) {
        None => None,
        Some(e) => match following(e) {
            None => None,
            Some(x) => Some(x.code()),
        },
    }
}

/// The steps of `E` as numbers.
pub open spec fn codec_for<E: RoundEnum>() -> CodecView {
    CodecView {
        name: E::title(),
        low: E::lowest().code(),
        size: E::steps(),
        table: Seq::new(
            E::all_codes().len(),
            |i: int| (E::all_codes()[i], enum_next_code::<E>(E::all_codes()[i])),
        ),
    }
}

/// What is listed is listed where it says, and what is not is nowhere.
proof fn lemma_listed(table: Seq<(u32, Option<u32>)>, v: u32, n: nat)
    requires
        n <= table.len(),
    ensures
        match listed_at(table, v, n) {
            Some(i) => 0 <= i < n && table[i].0 == v,
            None => forall|i: int| 0 <= i < n ==> (#[trigger] table[i]).0 != v,
        },
    decreases n,
{
    if n > 0 {
        lemma_listed(table, v, (n - 1) as nat);
    }
}

/// The codec of `E` goes by what `E` decodes: a number is a code exactly where it
/// decodes, and the code after it is that of the step after it.
pub proof fn law_codecs_decode<E: RoundEnum>(v: u32)
    ensures
        is_code(codec_for::<E>(), v) <==> E::decoded(v) is Some,
        code_after(codec_for::<E>(), v) == enum_next_code::<E>(v),
{
    let codes = E::all_codes();
    let table = codec_for::<E>().table;
    E::law_codes_decode();
    lemma_listed(table, v, table.len());
    match listed_at(table, v, table.len()) {
        Some(i) => {
            assert(table[i] == (codes[i], enum_next_code::<E>(codes[i])));
            assert(codes[i] == v);
            assert(codes.contains(v));
        },
        None => {
            if codes.contains(v) {
                let i = choose|i: int| 0 <= i < codes.len() && codes[i] == v;
                assert(table[i].0 == v);
            }
        },
    }
}

impl EnumCodec {
    /// The steps of `E` as numbers.
    fn of<E: RoundEnum>() -> (c: Self)
        ensures
            c@ == codec_for::<E>(),
    {
        let codes = E::codes();
        let mut table: Vec<(u32, Option<u32>)> = Vec::new();
        let mut i: usize = 0;
        while i < codes.len()
            invariant
                i <= codes@.len(),
                codes@ == E::all_codes(),
                table@.len() == i,
                forall|k: int|
                    0 <= k < i ==> #[trigger] table@[k] == (
                        codes@[k],
                        enum_next_code::<E>(codes@[k]),
                    ),
            decreases codes.len() - i,
        {
            let after = match E::try_from_u32(codes[i]) {
                None => None,
                Some(e) => match next(e) {
                    None => None,
                    Some(x) => Some(x.to_u32()),
                },
            };
            table.push((codes[i], after));
            i += 1;
        }
        let c = EnumCodec { name: E::name(), low: E::low().to_u32(), size: E::size(), table };
        assert(c@.table =~= codec_for::<E>().table);
        c
    }

    fn find(&self, v: u32) -> (r: Option<usize>)
        ensures
            match r {
                Some(i) => listed_at(self@.table, v, self@.table.len()) == Some(i as int) && i
                    < self.table@.len(),
                None => listed_at(self@.table, v, self@.table.len()) is None,
            },
    {
        let mut found: Option<usize> = None;
        let mut i: usize = 0;
        while i < self.table.len()
            invariant
                i <= self.table@.len(),
                match found {
                    Some(k) => listed_at(self.table@, v, i as nat) == Some(k as int) && k < i,
                    None => listed_at(self.table@, v, i as nat) is None,
                },
            decreases self.table.len() - i,
        {
            if found.is_none() && self.table[i].0 == v {
                found = Some(i);
            }
            i += 1;
        }
        found
    }

    /// Whether `v` is the code of a step.
    pub fn validate(&self, v: u32) -> (b: bool)
        ensures
            b == is_code(self@, v),
    {
        self.find(v).is_some()
    }

    /// The code after `v`.
    pub fn next(&self, v: u32) -> (r: Option<u32>)
        ensures
            r == code_after(self@, v),
    {
        match self.find(v) {
            Some(i) => self.table[i].1,
            None => None,
        }
    }
}

impl Clone for EnumCodec {
    fn clone(&self) -> (r: Self)
        ensures
            r@ == self@,
    {
        let mut table: Vec<(u32, Option<u32>)> = Vec::new();
        let mut i: usize = 0;
        while i < self.table.len()
            invariant
                i <= self.table@.len(),
                table@ == self.table@.take(i as int),
            decreases self.table.len() - i,
        {
            table.push(self.table[i]);
            i += 1;
        }
        assert(table@ =~= self.table@);
        EnumCodec { name: self.name, low: self.low, size: self.size, table }
    }
}

/// A level by its key.
#[derive(Clone, Copy, Debug, PartialEq, Eq)]
pub struct KeySpec {
    pub key_type: u64,
    pub key_index: u16,
    pub key_name: &'static str,
}

/// Whether a key can name a level.
pub open spec fn key_ok<K: RoundKey>(key: K) -> bool {
    key.place() < K::keys() && key.place() <= u16::MAX
}

/// A key as its numbers.
pub open spec fn spec_of<K: RoundKey>(key: K) -> KeySpec {
    KeySpec { key_type: K::kind(), key_index: key.place() as u16, key_name: key.title() }
}

fn key_spec<K: RoundKey>(key: K) -> (k: KeySpec)
    requires
        key_ok(key),
    ensures
        k == spec_of(key),
{
    KeySpec { key_type: K::key_type(), key_index: key.index() as u16, key_name: key.name() }
}

/// Where the key stands among the first `n` levels.
pub open spec fn level_at(levels: Seq<LevelSpec>, key: KeySpec, n: nat) -> Option<int>
    decreases n,
{
    if n == 0 {
        None
    } else {
        match level_at(levels, key, (n - 1) as nat) {
            Some(i) => Some(i),
            None => if levels[n - 1].key_type == key.key_type && levels[n - 1].key_index
                == key.key_index {
                Some(n - 1)
            } else {
                None
            },
        }
    }
}

/// Where the level of a key stands.
pub open spec fn level_of<K: RoundKey>(levels: Seq<LevelSpec>, key: K) -> Option<int> {
    level_at(levels, spec_of(key), levels.len())
}

fn find_level(levels: &Vec<LevelSpec>, key: KeySpec) -> (r: Option<usize>)
    ensures
        match r {
            Some(i) => level_at(levels@, key, levels@.len()) == Some(i as int) && i
                < levels@.len(),
            None => level_at(levels@, key, levels@.len()) is None,
        },
{
    let mut found: Option<usize> = None;
    let mut i: usize = 0;
    while i < levels.len()
        invariant
            i <= levels@.len(),
            match found {
                Some(k) => level_at(levels@, key, i as nat) == Some(k as int) && k < i,
                None => level_at(levels@, key, i as nat) is None,
            },
        decreases levels.len() - i,
    {
        if found.is_none() && levels[i].key_type == key.key_type && levels[i].key_index
            == key.key_index {
            found = Some(i);
        }
        i += 1;
    }
    found
}

/// How messages are filtered where the program says nothing else.
#[derive(Debug)]
pub struct DefaultFilter {
    pub order: Option<RoundOrder>,
    pub matches: Vec<(KeySpec, DefaultMatch)>,
}

impl Clone for DefaultFilter {
    fn clone(&self) -> (r: Self)
        ensures
            r.order == self.order,
            r.matches@ == self.matches@,
    {
        let mut matches: Vec<(KeySpec, DefaultMatch)> = Vec::new();
        let mut i: usize = 0;
        while i < self.matches.len()
            invariant
                i <= self.matches@.len(),
                matches@ == self.matches@.take(i as int),
            decreases self.matches.len() - i,
        {
            matches.push(self.matches[i]);
            i += 1;
        }
        assert(matches@ =~= self.matches@);
        DefaultFilter { order: self.order, matches }
    }
}

impl DefaultFilter {
    pub fn new() -> (f: Self)
        ensures
            f.order is None,
            f.matches@ == Seq::<(KeySpec, DefaultMatch)>::empty(),
    {
        DefaultFilter { order: None, matches: Vec::new() }
    }

    pub fn round_order(self, order: RoundOrder) -> (f: Self)
        ensures
            f.order == Some(order),
            f.matches@ == self.matches@,
    {
        DefaultFilter { order: Some(order), matches: self.matches }
    }

    pub fn level_match<K: RoundKey>(self, key: K, match_kind: DefaultMatch) -> (f: Self)
        requires
            key_ok(key),
        ensures
            f.order == self.order,
            f.matches@ == self.matches@.push((spec_of(key), match_kind)),
    {
        let mut f = self;
        f.matches.push((key_spec(key), match_kind));
        f
    }
}

/// A filter with one judgement for each level.
pub struct CompiledFilter {
    order: RoundOrder,
    matches: Vec<DefaultMatch>,
}

/// Such a filter as the contracts see it.
pub struct FilterView {
    pub order: RoundOrder,
    pub matches: Seq<DefaultMatch>,
}

impl View for CompiledFilter {
    type V = FilterView;

    closed spec fn view(&self) -> FilterView {
        FilterView { order: self.order, matches: self.matches@ }
    }
}

/// The judgement for each level after the first `n` of the filter's: later ones count.
pub open spec fn judgements(
    levels: Seq<LevelSpec>,
    matches: Seq<(KeySpec, DefaultMatch)>,
    n: nat,
) -> Seq<DefaultMatch>
    decreases n,
{
    if n == 0 {
        Seq::new(levels.len(), |i: int| DefaultMatch::Any)
    } else {
        judgements(levels, matches, (n - 1) as nat).update(
            level_at(levels, matches[n - 1].0, levels.len())->0,
            matches[n - 1].1,
        )
    }
}

/// Whether all keys that a filter names have a level.
pub open spec fn filter_ok(
    levels: Seq<LevelSpec>,
    matches: Seq<(KeySpec, DefaultMatch)>,
) -> bool {
    forall|i: int|
        0 <= i < matches.len() ==> level_at(
            levels,
            (#[trigger] matches[i]).0,
            levels.len(),
        ) is Some
}

/// A filter for the given levels.
pub open spec fn compiled(
    levels: Seq<LevelSpec>,
    order: Option<RoundOrder>,
    matches: Seq<(KeySpec, DefaultMatch)>,
    default_order: RoundOrder,
) -> FilterView {
    FilterView {
        order: match order {
            Some(o) => o,
            None => default_order,
        },
        matches: judgements(levels, matches, matches.len()),
    }
}

impl DefaultFilter {
    fn compile(self, levels: &Vec<LevelSpec>, default_order: RoundOrder) -> (f: CompiledFilter)
        requires
            filter_ok(levels@, self.matches@),
        ensures
            f@ == compiled(levels@, self.order, self.matches@, default_order),
    {
        let mut matches: Vec<DefaultMatch> = Vec::new();
        let mut i: usize = 0;
        while i < levels.len()
            invariant
                i <= levels@.len(),
                matches@.len() == i,
                forall|k: int| 0 <= k < i ==> #[trigger] matches@[k] == DefaultMatch::Any,
            decreases levels.len() - i,
        {
            matches.push(DefaultMatch::Any);
            i += 1;
        }
        assert(matches@ =~= judgements(levels@, self.matches@, 0));
        let mut k: usize = 0;
        while k < self.matches.len()
            invariant
                k <= self.matches@.len(),
                filter_ok(levels@, self.matches@),
                matches@.len() == levels@.len(),
                matches@ == judgements(levels@, self.matches@, k as nat),
            decreases self.matches.len() - k,
        {
            match find_level(levels, self.matches[k].0) {
                Some(at) => matches.set(at, self.matches[k].1),
                None => {},
            }
            k += 1;
        }
        let order = match self.order {
            Some(o) => o,
            None => default_order,
        };
        CompiledFilter { order, matches }
    }
}

impl CompiledFilter {
    pub fn order(&self) -> (o: RoundOrder)
        ensures
            o == self@.order,
    {
        self.order
    }

    pub fn matches(&self) -> (m: &Vec<DefaultMatch>)
        ensures
            m@ == self@.matches,
    {
        &self.matches
    }

    fn copy(&self) -> (r: Self)
        ensures
            r@ == self@,
    {
        let mut matches: Vec<DefaultMatch> = Vec::new();
        let mut i: usize = 0;
        while i < self.matches.len()
            invariant
                i <= self.matches@.len(),
                matches@ == self.matches@.take(i as int),
            decreases self.matches.len() - i,
        {
            matches.push(self.matches[i]);
            i += 1;
        }
        assert(matches@ =~= self.matches@);
        CompiledFilter { order: self.order, matches }
    }
}

/// The levels of a round.
pub struct RoundScheme {
    levels: Vec<LevelSpec>,
    enum_codecs: Vec<(u64, EnumCodec)>,
    default_round_order: RoundOrder,
    default_filter: Option<CompiledFilter>,
}

/// The levels of a round as the contracts see them.
#[verifier::ext_equal]
pub struct SchemeView {
    pub levels: Seq<LevelSpec>,
    pub codecs: Seq<(u64, CodecView)>,
    pub order: RoundOrder,
    pub filter: Option<FilterView>,
}

/// The views of a list of codecs.
pub open spec fn codecs_view(codecs: Seq<(u64, EnumCodec)>) -> Seq<(u64, CodecView)> {
    Seq::new(codecs.len(), |i: int| (codecs[i].0, codecs[i].1@))
}

/// The view of a filter, where there is one.
pub open spec fn filter_view(f: Option<CompiledFilter>) -> Option<FilterView> {
    match f {
        Some(x) => Some(x@),
        None => None,
    }
}

impl View for RoundScheme {
    type V = SchemeView;

    closed spec fn view(&self) -> SchemeView {
        SchemeView {
            levels: self.levels@,
            codecs: codecs_view(self.enum_codecs@),
            order: self.default_round_order,
            filter: filter_view(self.default_filter),
        }
    }
}

/// The codec of a type among the first `n`.
pub open spec fn codec_of(codecs: Seq<(u64, CodecView)>, kind: u64, n: nat) -> Option<CodecView>
    decreases n,
{
    if n == 0 {
        None
    } else {
        match codec_of(codecs, kind, (n - 1) as nat) {
            Some(c) => Some(c),
            None => if codecs[n - 1].0 == kind {
                Some(codecs[n - 1].1)
            } else {
                None
            },
        }
    }
}

fn find_codec(codecs: &Vec<(u64, EnumCodec)>, kind: u64) -> (r: Option<&EnumCodec>)
    ensures
        match r {
            Some(c) => codec_of(codecs_view(codecs@), kind, codecs@.len()) == Some(c@),
            None => codec_of(codecs_view(codecs@), kind, codecs@.len()) is None,
        },
{
    let ghost views = codecs_view(codecs@);
    let mut i: usize = 0;
    while i < codecs.len()
        invariant
            i <= codecs@.len(),
            views == codecs_view(codecs@),
            codec_of(views, kind, i as nat) is None,
        decreases codecs.len() - i,
    {
        assert(views[i as int] == (codecs@[i as int].0, codecs@[i as int].1@));
        if codecs[i].0 == kind {
            proof {
                lemma_codec_stays(views, kind, (i + 1) as nat, views.len());
            }
            return Some(&codecs[i].1);
        }
        i += 1;
    }
    None
}

proof fn lemma_codec_stays(codecs: Seq<(u64, CodecView)>, kind: u64, m: nat, n: nat)
    requires
        m <= n,
        codec_of(codecs, kind, m) is Some,
    ensures
        codec_of(codecs, kind, n) == codec_of(codecs, kind, m),
    decreases n,
{
    if m < n {
        lemma_codec_stays(codecs, kind, m, (n - 1) as nat);
    }
}

impl RoundScheme {
    /// No key has two levels, and each level of steps begins at a step.
    pub open spec fn wf(&self) -> bool {
        levels_ok(self@.levels, self@.codecs)
    }

    pub fn builder() -> (b: RoundSchemeBuilder)
        ensures
            b.wf(),
            b@ == new_builder(),
    {
        RoundSchemeBuilder::new()
    }

    /// Rounds are ordered by their first difference.
    pub fn lexicographic() -> (b: RoundSchemeBuilder)
        ensures
            b.wf(),
            b@ == ordered_builder(RoundOrder::Lexicographic),
    {
        let b = RoundSchemeBuilder::new().default_round_order(
            RoundOrder::Lexicographic,
        ).default_filter(DefaultFilter::new().round_order(RoundOrder::Lexicographic));
        assert(b@ =~= ordered_builder(RoundOrder::Lexicographic));
        b
    }

    /// Rounds are ordered level by level.
    pub fn component_wise() -> (b: RoundSchemeBuilder)
        ensures
            b.wf(),
            b@ == ordered_builder(RoundOrder::ComponentWise),
    {
        let b = RoundSchemeBuilder::new().default_round_order(
            RoundOrder::ComponentWise,
        ).default_filter(DefaultFilter::new().round_order(RoundOrder::ComponentWise));
        assert(b@ =~= ordered_builder(RoundOrder::ComponentWise));
        b
    }

    pub fn with_default_filter(filter: DefaultFilter) -> (b: RoundSchemeBuilder)
        ensures
            b.wf(),
            b@ == (BuilderView {
                filter: Some((filter.order, filter.matches@)),
                ..new_builder()
            }),
    {
        RoundSchemeBuilder::new().default_filter(filter)
    }

    pub fn levels(&self) -> (l: &Vec<LevelSpec>)
        ensures
            l@ == self@.levels,
    {
        &self.levels
    }

    pub fn level_count(&self) -> (n: usize)
        ensures
            n == self@.levels.len(),
    {
        self.levels.len()
    }

    /// The level of a key.
    pub fn level_for_key<K: RoundKey>(&self, key: K) -> (l: &LevelSpec)
        requires
            key_ok(key),
            level_of(self@.levels, key) is Some,
        ensures
            *l == self@.levels[level_of(self@.levels, key)->0],
    {
        let i = self.key_position(key);
        &self.levels[i]
    }

    /// The steps of `E` as numbers, where a level of `E` was added.
    pub fn enum_codec<E: RoundEnum>(&self) -> (c: &EnumCodec)
        requires
            has_codec::<E>(self@.codecs),
        ensures
            c@ == codec_for::<E>(),
            forall|v: u32| #[trigger] is_code(c@, v) <==> E::decoded(v) is Some,
            forall|v: u32| #[trigger] code_after(c@, v) == enum_next_code::<E>(v),
    {
        proof {
            assert forall|v: u32|
                (#[trigger] is_code(codec_for::<E>(), v) <==> E::decoded(v) is Some) by {
                law_codecs_decode::<E>(v);
            }
            assert forall|v: u32| #[trigger]
                code_after(codec_for::<E>(), v) == enum_next_code::<E>(v) by {
                law_codecs_decode::<E>(v);
            }
        }
        find_codec(&self.enum_codecs, E::enum_type()).unwrap()
    }

    pub fn default_round_order(&self) -> (o: RoundOrder)
        ensures
            o == self@.order,
    {
        self.default_round_order
    }

    pub fn default_filter(&self) -> (f: Option<&CompiledFilter>)
        ensures
            match f {
                Some(x) => self@.filter == Some(x@),
                None => self@.filter is None,
            },
    {
        match &self.default_filter {
            Some(f) => Some(f),
            None => None,
        }
    }

    /// Where the level of a key stands.
    pub fn key_position<K: RoundKey>(&self, key: K) -> (i: usize)
        requires
            key_ok(key),
            level_of(self@.levels, key) is Some,
        ensures
            level_of(self@.levels, key) == Some(i as int),
            i < self@.levels.len(),
    {
        find_level(&self.levels, key_spec(key)).unwrap()
    }

    /// The codec of a type, where it is known.
    pub fn codec(&self, enum_type: u64) -> (r: Option<&EnumCodec>)
        ensures
            match r {
                Some(c) => codec_of(self@.codecs, enum_type, self@.codecs.len()) == Some(c@),
                None => codec_of(self@.codecs, enum_type, self@.codecs.len()) is None,
            },
    {
        find_codec(&self.enum_codecs, enum_type)
    }

    pub fn low_components(&self) -> (r: Vec<u32>)
        ensures
            r@ == lows(self@.levels),
    {
        let mut r: Vec<u32> = Vec::new();
        let mut i: usize = 0;
        while i < self.levels.len()
            invariant
                i <= self.levels@.len(),
                r@.len() == i,
                forall|k: int| 0 <= k < i ==> #[trigger] r@[k] == self.levels@[k].low,
            decreases self.levels.len() - i,
        {
            r.push(self.levels[i].low);
            i += 1;
        }
        assert(r@ =~= lows(self.levels@));
        r
    }
}

/// The lowest round.
pub open spec fn lows(levels: Seq<LevelSpec>) -> Seq<u32> {
    Seq::new(levels.len(), |i: int| levels[i].low)
}

impl Clone for RoundScheme {
    fn clone(&self) -> (r: Self)
        ensures
            r@ == self@,
    {
        let mut levels: Vec<LevelSpec> = Vec::new();
        let mut i: usize = 0;
        while i < self.levels.len()
            invariant
                i <= self.levels@.len(),
                levels@ == self.levels@.take(i as int),
            decreases self.levels.len() - i,
        {
            levels.push(self.levels[i]);
            i += 1;
        }
        assert(levels@ =~= self.levels@);
        let mut enum_codecs: Vec<(u64, EnumCodec)> = Vec::new();
        let mut k: usize = 0;
        while k < self.enum_codecs.len()
            invariant
                k <= self.enum_codecs@.len(),
                enum_codecs@.len() == k,
                forall|j: int|
                    0 <= j < k ==> (#[trigger] enum_codecs@[j]).0 == self.enum_codecs@[j].0
                        && enum_codecs@[j].1@ == self.enum_codecs@[j].1@,
            decreases self.enum_codecs.len() - k,
        {
            enum_codecs.push((self.enum_codecs[k].0, self.enum_codecs[k].1.clone()));
            k += 1;
        }
        let default_filter = match &self.default_filter {
            Some(f) => Some(f.copy()),
            None => None,
        };
        let r = RoundScheme {
            levels,
            enum_codecs,
            default_round_order: self.default_round_order,
            default_filter,
        };
        assert(r@.codecs =~= self@.codecs);
        r
    }
}

/// Builds the levels of a round.
pub struct RoundSchemeBuilder {
    levels: Vec<LevelSpec>,
    enum_codecs: Vec<(u64, EnumCodec)>,
    default_round_order: RoundOrder,
    default_filter: Option<DefaultFilter>,
}

/// A builder as the contracts see it.
#[verifier::ext_equal]
pub struct BuilderView {
    pub levels: Seq<LevelSpec>,
    pub codecs: Seq<(u64, CodecView)>,
    pub order: RoundOrder,
    pub filter: Option<(Option<RoundOrder>, Seq<(KeySpec, DefaultMatch)>)>,
}

impl View for RoundSchemeBuilder {
    type V = BuilderView;

    closed spec fn view(&self) -> BuilderView {
        BuilderView {
            levels: self.levels@,
            codecs: codecs_view(self.enum_codecs@),
            order: self.default_round_order,
            filter: match self.default_filter {
                Some(f) => Some((f.order, f.matches@)),
                None => None,
            },
        }
    }
}

/// A builder without levels.
pub open spec fn new_builder() -> BuilderView {
    BuilderView {
        levels: Seq::empty(),
        codecs: Seq::empty(),
        order: RoundOrder::Lexicographic,
        filter: None,
    }
}

/// A builder without levels whose rounds and filter have the given order.
pub open spec fn ordered_builder(order: RoundOrder) -> BuilderView {
    BuilderView { order, filter: Some((Some(order), Seq::empty())), ..new_builder() }
}

/// A builder with one more level of numbers.
pub open spec fn with_u32_level(b: BuilderView, key: KeySpec, low: u32) -> BuilderView {
    BuilderView {
        levels: b.levels.push(
            LevelSpec {
                key_type: key.key_type,
                key_index: key.key_index,
                key_name: key.key_name,
                kind: LevelKind::U32,
                low,
            },
        ),
        ..b
    }
}

/// Whether the codec of `E` is known.
pub open spec fn has_codec<E: RoundEnum>(codecs: Seq<(u64, CodecView)>) -> bool {
    codec_of(codecs, E::kind(), codecs.len()) == Some(codec_for::<E>())
}

/// The codecs with that of `E`.
pub open spec fn with_codec<E: RoundEnum>(codecs: Seq<(u64, CodecView)>) -> Seq<(u64, CodecView)> {
    if codec_of(codecs, E::kind(), codecs.len()) is Some {
        codecs
    } else {
        codecs.push((E::kind(), codec_for::<E>()))
    }
}

/// A builder with one more level of steps.
pub open spec fn with_enum_level<E: RoundEnum>(b: BuilderView, key: KeySpec, low: u32) -> BuilderView {
    BuilderView {
        levels: b.levels.push(
            LevelSpec {
                key_type: key.key_type,
                key_index: key.key_index,
                key_name: key.key_name,
                kind: LevelKind::Enum { enum_type: E::kind() },
                low,
            },
        ),
        codecs: with_codec::<E>(b.codecs),
        ..b
    }
}

/// Whether a level with this key and lowest step can be added: the key has no level yet,
/// and the step decodes. What is known under the number of `E` is the codec of `E`.
pub open spec fn enum_level_ok<E: RoundEnum>(b: BuilderView, key: KeySpec, low: u32) -> bool {
    &&& level_at(b.levels, key, b.levels.len()) is None
    &&& E::decoded(low) is Some
    &&& codec_of(b.codecs, E::kind(), b.codecs.len()) is Some ==> has_codec::<E>(b.codecs)
}

/// Whether two levels have the same key.
pub open spec fn same_key(a: LevelSpec, b: LevelSpec) -> bool {
    a.key_type == b.key_type && a.key_index == b.key_index
}

/// Whether the codec that belongs to a level accepts where the level begins.
pub open spec fn low_accepted(level: LevelSpec, codecs: Seq<(u64, CodecView)>) -> bool {
    level.kind matches LevelKind::Enum { enum_type } ==> (codec_of(
        codecs,
        enum_type,
        codecs.len(),
    ) matches Some(c) && is_code(c, level.low))
}

/// The invariant of schemes: no key has two levels, and each level of steps has a codec,
/// which accepts the step where the level begins.
pub open spec fn levels_ok(levels: Seq<LevelSpec>, codecs: Seq<(u64, CodecView)>) -> bool {
    &&& forall|i: int, j: int|
        0 <= i < j < levels.len() ==> !same_key(#[trigger] levels[i], #[trigger] levels[j])
    &&& forall|i: int| 0 <= i < levels.len() ==> low_accepted(#[trigger] levels[i], codecs)
}

/// Where a key stands depends on the levels up to there alone.
proof fn lemma_level_at_push(levels: Seq<LevelSpec>, l: LevelSpec, key: KeySpec, n: nat)
    requires
        n <= levels.len(),
    ensures
        level_at(levels.push(l), key, n) == level_at(levels, key, n),
    decreases n,
{
    if n > 0 {
        lemma_level_at_push(levels, l, key, (n - 1) as nat);
    }
}

/// A key without a level differs from those of all levels.
proof fn lemma_no_level(levels: Seq<LevelSpec>, key: KeySpec, n: nat)
    requires
        n <= levels.len(),
        level_at(levels, key, n) is None,
    ensures
        forall|i: int|
            0 <= i < n ==> (#[trigger] levels[i]).key_type != key.key_type || levels[i].key_index
                != key.key_index,
    decreases n,
{
    if n > 0 {
        lemma_no_level(levels, key, (n - 1) as nat);
    }
}

/// What is known of the first codecs stays when one more is added.
proof fn lemma_codec_of_push(codecs: Seq<(u64, CodecView)>, c: (u64, CodecView), kind: u64, n: nat)
    requires
        n <= codecs.len(),
    ensures
        codec_of(codecs.push(c), kind, n) == codec_of(codecs, kind, n),
    decreases n,
{
    if n > 0 {
        lemma_codec_of_push(codecs, c, kind, (n - 1) as nat);
    }
}

/// Once a level of `E` was added, its codec is known, and so are those known before.
proof fn lemma_with_codec<E: RoundEnum>(codecs: Seq<(u64, CodecView)>)
    requires
        codec_of(codecs, E::kind(), codecs.len()) is Some ==> has_codec::<E>(codecs),
    ensures
        has_codec::<E>(with_codec::<E>(codecs)),
        forall|kind: u64|
            (#[trigger] codec_of(codecs, kind, codecs.len())) is Some ==> codec_of(
                with_codec::<E>(codecs),
                kind,
                with_codec::<E>(codecs).len(),
            ) == codec_of(codecs, kind, codecs.len()),
{
    if codec_of(codecs, E::kind(), codecs.len()) is None {
        let c = (E::kind(), codec_for::<E>());
        assert forall|kind: u64| codec_of(codecs.push(c), kind, codecs.len()) == #[trigger] codec_of(
            codecs,
            kind,
            codecs.len(),
        ) by {
            lemma_codec_of_push(codecs, c, kind, codecs.len());
        }
        assert(codec_of(codecs.push(c), E::kind(), codecs.len()) is None);
    }
}

/// A new level with a new key keeps the invariant of schemes.
proof fn lemma_level_pushed(
    levels: Seq<LevelSpec>,
    codecs: Seq<(u64, CodecView)>,
    more: Seq<(u64, CodecView)>,
    l: LevelSpec,
    key: KeySpec,
)
    requires
        levels_ok(levels, codecs),
        l.key_type == key.key_type,
        l.key_index == key.key_index,
        level_at(levels, key, levels.len()) is None,
        low_accepted(l, more),
        forall|kind: u64|
            (#[trigger] codec_of(codecs, kind, codecs.len())) is Some ==> codec_of(
                more,
                kind,
                more.len(),
            ) == codec_of(codecs, kind, codecs.len()),
    ensures
        levels_ok(levels.push(l), more),
        level_at(levels.push(l), key, levels.len() + 1) == Some(levels.len() as int),
{
    let after = levels.push(l);
    let n = levels.len() as int;
    lemma_no_level(levels, key, levels.len());
    lemma_level_at_push(levels, l, key, levels.len());
    assert forall|i: int, j: int| 0 <= i < j < after.len() implies !same_key(
        #[trigger] after[i],
        #[trigger] after[j],
    ) by {
        assert(after[i] == levels[i]);
        if j < n {
            assert(after[j] == levels[j]);
        }
    }
    assert forall|i: int| 0 <= i < after.len() implies low_accepted(#[trigger] after[i], more) by {
        if i < n {
            assert(after[i] == levels[i]);
            assert(low_accepted(levels[i], codecs));
        }
    }
}

/// A level of numbers goes behind those added before, where its key finds it.
pub proof fn law_number_levels_are_added(b: BuilderView, key: KeySpec, low: u32)
    requires
        levels_ok(b.levels, b.codecs),
        level_at(b.levels, key, b.levels.len()) is None,
    ensures
        levels_ok(with_u32_level(b, key, low).levels, with_u32_level(b, key, low).codecs),
        with_u32_level(b, key, low).levels.drop_last() == b.levels,
        level_at(
            with_u32_level(b, key, low).levels,
            key,
            with_u32_level(b, key, low).levels.len(),
        ) == Some(b.levels.len() as int),
        lows(with_u32_level(b, key, low).levels).last() == low,
{
    let l = with_u32_level(b, key, low).levels.last();
    lemma_level_pushed(b.levels, b.codecs, b.codecs, l, key);
    assert(with_u32_level(b, key, low).levels.drop_last() =~= b.levels);
}

/// A level of steps goes behind those added before, where its key finds it; the codec of
/// its type is known then and accepts the step where it begins.
pub proof fn law_step_levels_are_added<E: RoundEnum>(b: BuilderView, key: KeySpec, low: u32)
    requires
        levels_ok(b.levels, b.codecs),
        enum_level_ok::<E>(b, key, low),
    ensures
        levels_ok(
            with_enum_level::<E>(b, key, low).levels,
            with_enum_level::<E>(b, key, low).codecs,
        ),
        with_enum_level::<E>(b, key, low).levels.drop_last() == b.levels,
        level_at(
            with_enum_level::<E>(b, key, low).levels,
            key,
            with_enum_level::<E>(b, key, low).levels.len(),
        ) == Some(b.levels.len() as int),
        lows(with_enum_level::<E>(b, key, low).levels).last() == low,
        has_codec::<E>(with_enum_level::<E>(b, key, low).codecs),
        forall|kind: u64|
            (#[trigger] codec_of(b.codecs, kind, b.codecs.len())) is Some ==> codec_of(
                with_enum_level::<E>(b, key, low).codecs,
                kind,
                with_enum_level::<E>(b, key, low).codecs.len(),
            ) == codec_of(b.codecs, kind, b.codecs.len()),
{
    let after = with_enum_level::<E>(b, key, low);
    lemma_with_codec::<E>(b.codecs);
    law_codecs_decode::<E>(low);
    lemma_level_pushed(b.levels, b.codecs, after.codecs, after.levels.last(), key);
    assert(after.levels.drop_last() =~= b.levels);
}

impl RoundSchemeBuilder {
    /// No key has two levels, and each level of steps begins at a step.
    pub open spec fn wf(&self) -> bool {
        levels_ok(self@.levels, self@.codecs)
    }

    pub fn new() -> (b: Self)
        ensures
            b.wf(),
            b@ == new_builder(),
    {
        let b = RoundSchemeBuilder {
            levels: Vec::new(),
            enum_codecs: Vec::new(),
            default_round_order: RoundOrder::Lexicographic,
            default_filter: None,
        };
        assert(b@ =~= new_builder());
        b
    }

    pub fn default_round_order(self, order: RoundOrder) -> (b: Self)
        requires
            self.wf(),
        ensures
            b.wf(),
            b@ == (BuilderView { order, ..self@ }),
    {
        let mut b = self;
        b.default_round_order = order;
        b
    }

    pub fn default_filter(self, filter: DefaultFilter) -> (b: Self)
        requires
            self.wf(),
        ensures
            b.wf(),
            b@ == (BuilderView { filter: Some((filter.order, filter.matches@)), ..self@ }),
    {
        let mut b = self;
        b.default_filter = Some(filter);
        b
    }

    /// Begins a level of numbers.
    pub fn u32_level<K: RoundKey>(self, key: K) -> (l: U32LevelBuilder)
        requires
            self.wf(),
            key_ok(key),
        ensures
            l.builder.wf(),
            l.builder@ == self@,
            l.key == spec_of(key),
            l.low == 0,
    {
        U32LevelBuilder { builder: self, key: key_spec(key), low: 0 }
    }

    /// Adds a level of numbers that begins at zero.
    pub fn from_u32<K: RoundKey>(self, key: K) -> (b: Self)
        requires
            self.wf(),
            key_ok(key),
            level_of(self@.levels, key) is None,
        ensures
            b.wf(),
            b@ == with_u32_level(self@, spec_of(key), 0),
    {
        let mut b = self;
        b.add_u32_level(key_spec(key), 0);
        b
    }

    /// Begins a level of steps.
    pub fn enum_level<E: RoundEnum, K: RoundKey>(self, key: K) -> (l: EnumLevelBuilder<E>)
        requires
            self.wf(),
            key_ok(key),
        ensures
            l.builder.wf(),
            l.builder@ == self@,
            l.key == spec_of(key),
            l.low == E::lowest(),
    {
        EnumLevelBuilder { builder: self, key: key_spec(key), low: E::low() }
    }

    /// Adds a level of steps.
    pub fn from_enum<E: RoundEnum, K: RoundKey>(self, key: K) -> (b: Self)
        requires
            self.wf(),
            key_ok(key),
            enum_level_ok::<E>(self@, spec_of(key), E::lowest().code()),
        ensures
            b.wf(),
            b@ == with_enum_level::<E>(self@, spec_of(key), E::lowest().code()),
    {
        let mut b = self;
        b.add_enum_level::<E>(key_spec(key), E::low());
        b
    }

    /// The levels that were added.
    pub fn build(self) -> (s: RoundScheme)
        requires
            self.wf(),
            self@.filter matches Some(f) ==> filter_ok(self@.levels, f.1),
        ensures
            s.wf(),
            s@ == (SchemeView {
                levels: self@.levels,
                codecs: self@.codecs,
                order: self@.order,
                filter: match self@.filter {
                    Some(f) => Some(compiled(self@.levels, f.0, f.1, self@.order)),
                    None => None,
                },
            }),
    {
        let default_filter = match self.default_filter {
            Some(f) => Some(f.compile(&self.levels, self.default_round_order)),
            None => None,
        };
        RoundScheme {
            levels: self.levels,
            enum_codecs: self.enum_codecs,
            default_round_order: self.default_round_order,
            default_filter,
        }
    }

    fn add_u32_level(&mut self, key: KeySpec, low: u32)
        requires
            old(self).wf(),
            level_at(old(self)@.levels, key, old(self)@.levels.len()) is None,
        ensures
            final(self).wf(),
            final(self)@ == with_u32_level(old(self)@, key, low),
    {
        proof {
            law_number_levels_are_added(self@, key, low);
        }
        self.levels.push(
            LevelSpec {
                key_type: key.key_type,
                key_index: key.key_index,
                key_name: key.key_name,
                kind: LevelKind::U32,
                low,
            },
        );
    }

    fn add_enum_level<E: RoundEnum>(&mut self, key: KeySpec, low: E)
        requires
            old(self).wf(),
            enum_level_ok::<E>(old(self)@, key, low.code()),
        ensures
            final(self).wf(),
            final(self)@ == with_enum_level::<E>(old(self)@, key, low.code()),
    {
        let ghost before = self@;
        proof {
            law_step_levels_are_added::<E>(before, key, low.code());
        }
        if find_codec(&self.enum_codecs, E::enum_type()).is_none() {
            let codec = EnumCodec::of::<E>();
            let ghost c = codec@;
            let ghost raw = self.enum_codecs@;
            self.enum_codecs.push((E::enum_type(), codec));
            assert(codecs_view(self.enum_codecs@) =~= codecs_view(raw).push((E::kind(), c)));
        }
        self.levels.push(
            LevelSpec {
                key_type: key.key_type,
                key_index: key.key_index,
                key_name: key.key_name,
                kind: LevelKind::Enum { enum_type: E::enum_type() },
                low: low.to_u32(),
            },
        );
        assert(self@ =~= with_enum_level::<E>(before, key, low.code()));
    }
}

/// A level of numbers that is being built.
pub struct U32LevelBuilder {
    pub builder: RoundSchemeBuilder,
    pub key: KeySpec,
    pub low: u32,
}

impl U32LevelBuilder {
    pub fn low(self, low: u32) -> (l: Self)
        ensures
            l == (U32LevelBuilder { low, ..self }),
    {
        U32LevelBuilder { builder: self.builder, key: self.key, low }
    }

    /// Adds the level.
    pub fn done(self) -> (b: RoundSchemeBuilder)
        requires
            self.builder.wf(),
            level_at(self.builder@.levels, self.key, self.builder@.levels.len()) is None,
        ensures
            b.wf(),
            b@ == with_u32_level(self.builder@, self.key, self.low),
    {
        let mut b = self.builder;
        b.add_u32_level(self.key, self.low);
        b
    }
}

/// A level of steps that is being built.
pub struct EnumLevelBuilder<E> {
    pub builder: RoundSchemeBuilder,
    pub key: KeySpec,
    pub low: E,
}

impl<E: RoundEnum> EnumLevelBuilder<E> {
    pub fn low(self, low: E) -> (l: Self)
        ensures
            l == (EnumLevelBuilder { low, ..self }),
    {
        EnumLevelBuilder { builder: self.builder, key: self.key, low }
    }

    /// Adds the level.
    pub fn done(self) -> (b: RoundSchemeBuilder)
        requires
            self.builder.wf(),
            enum_level_ok::<E>(self.builder@, self.key, self.low.code()),
        ensures
            b.wf(),
            b@ == with_enum_level::<E>(self.builder@, self.key, self.low.code()),
    {
        let mut b = self.builder;
        b.add_enum_level::<E>(self.key, self.low);
        b
    }
}

} // verus!
