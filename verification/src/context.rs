//! The state of one input session: what has been typed, what it converts
//! to, and what the host is to show.
use vstd::prelude::*;
use vstd::string::StringExecFns;
use crate::akaza_builder::{Akaza, AkazaError};
use crate::graph::graph_resolver::{best_path, is_clause, Candidate};
use crate::graph::lattice_graph::LatticeGraph;
use crate::ibus::{
    background_of,
    background_range,
    commits,
    shows_auxiliary,
    shows_lookup_table,
    shows_preedit,
    EngineAction,
};
use crate::romkan::{
    converted,
    is_hiragana,
    lemma_hiragana_is_fixed,
    standard_table,
    table_wf,
    without_last,
    RomKanConverter,
};
use crate::text::{byte_len, str_byte_len, str_eq, to_chars};

verus! {

/// What the keys that are typed turn into.
#[derive(Debug, Clone, Copy, PartialEq, Eq, Structural)]
pub enum InputMode {
    /// Hiragana, to be converted.
    Hiragana,
    /// Letters and digits as they are.
    Alnum,
}

/// Where the session stands.
#[derive(Debug, Hash, PartialEq, Eq, Copy, Clone, Structural)]
pub enum KeyState {
    /// Nothing has been typed.
    PreComposition,
    /// Something has been typed and not yet converted.
    Composition,
    /// The candidates of a conversion are on show.
    Conversion,
}

/// What a key can be bound to.
#[derive(Debug, Clone, Copy, PartialEq, Eq, Structural)]
pub enum Command {
    /// Commit the text of the conversion.
    CommitCandidate,
    /// Convert what has been typed.
    UpdateCandidates,
    /// Take back the last thing typed.
    EraseCharacterBeforeCursor,
    /// Turn to hiragana.
    SetInputModeHiragana,
    /// Turn to letters and digits.
    SetInputModeAlnum,
}

/// The command with the name `name`, if there is one.
pub open spec fn command_named(name: Seq<char>) -> Option<Command> {
    if name == "commit_candidate"@ {
        Some(Command::CommitCandidate)
    } else if name == "update_candidates"@ {
        Some(Command::UpdateCandidates)
    } else if name == "erase_character_before_cursor"@ {
        Some(Command::EraseCharacterBeforeCursor)
    } else if name == "set_input_mode_hiragana"@ {
        Some(Command::SetInputModeHiragana)
    } else if name == "set_input_mode_alnum"@ {
        Some(Command::SetInputModeAlnum)
    } else {
        None
    }
}

/// The command with the name `name`, if there is one.
pub fn command_by_name(name: &str) -> (r: Option<Command>)
    ensures
        r == command_named(name@),
{
    if str_eq(name, "commit_candidate") {
        Some(Command::CommitCandidate)
    } else if str_eq(name, "update_candidates") {
        Some(Command::UpdateCandidates)
    } else if str_eq(name, "erase_character_before_cursor") {
        Some(Command::EraseCharacterBeforeCursor)
    } else if str_eq(name, "set_input_mode_hiragana") {
        Some(Command::SetInputModeHiragana)
    } else if str_eq(name, "set_input_mode_alnum") {
        Some(Command::SetInputModeAlnum)
    } else {
        None
    }
}

/// Whether `c` is an ASCII capital letter.
pub open spec fn is_ascii_upper(c: char) -> bool {
    'A' <= c <= 'Z'
}

/// The first way of writing each clause, one after the other.
pub open spec fn first_choices(clauses: Seq<Vec<Candidate>>, n: nat) -> Seq<char>
    decreases n,
{
    if n == 0 {
        Seq::empty()
    } else {
        first_choices(clauses, (n - 1) as nat) + clauses[n - 1]@[0].kanji@
    }
}

/// The byte lengths of the first way of writing each clause, added up, but
/// no more than `usize::MAX`.
pub open spec fn first_choice_bytes(clauses: Seq<Vec<Candidate>>, n: nat) -> nat
    decreases n,
{
    if n == 0 {
        0
    } else {
        let sum = first_choice_bytes(clauses, (n - 1) as nat) + byte_len(clauses[n - 1]@[0].kanji@);
        if sum > usize::MAX {
            usize::MAX as nat
        } else {
            sum
        }
    }
}

/// Where the background of the composed text starts and ends while
/// `current` is the current clause: it starts after as many bytes as the
/// first candidates of all clauses have together, and is as long as the
/// first candidate of the current clause; neither goes beyond `usize::MAX`.
pub open spec fn background_at(clauses: Seq<Vec<Candidate>>, current: int) -> (int, int) {
    let start = first_choice_bytes(clauses, clauses.len());
    let end = start + byte_len(clauses[current]@[0].kanji@);
    (
        start as int,
        if end > usize::MAX {
            usize::MAX as int
        } else {
            end as int
        },
    )
}

/// Whether `actions` are what shows a conversion with the given clauses
/// of which `current` is the current one, while `typed` says whether
/// anything has been typed and `listed` whether the window of candidates
/// holds any.
pub open spec fn shows_conversion(
    actions: Seq<EngineAction>,
    clauses: Seq<Vec<Candidate>>,
    current: int,
    typed: bool,
    listed: bool,
) -> bool {
    &&& actions.len() == 3
    &&& if clauses.len() == 0 {
        &&& actions[0] is HideAuxiliaryText
        &&& actions[1] is HideLookupTable
        &&& actions[2] is HidePreeditText
    } else {
        &&& shows_auxiliary(actions[0], clauses[current]@[0].yomi@, typed)
        &&& shows_preedit(actions[1], first_choices(clauses, clauses.len()))
        &&& background_range(actions[1]) == background_at(clauses, current)
        &&& shows_lookup_table(actions[2], listed)
    }
}

/// Whether `action` is what shows `preedit` before it is converted:
/// nothing typed hides the window of candidates; else the text to show,
/// which is what has been typed as it is if that starts with a capital
/// letter and else what has been typed in hiragana, is underlined as a
/// whole and has no background.
pub open spec fn shows_typed(
    action: EngineAction,
    preedit: Seq<char>,
    table: Seq<(Seq<char>, Seq<char>)>,
) -> bool {
    if preedit.len() == 0 {
        action is HideLookupTable
    } else {
        shows_preedit(
            action,
            if is_ascii_upper(preedit[0]) {
                preedit
            } else {
                converted(table, preedit)
            },
        ) && background_of(action) is None
    }
}

/// Whether `table` lists the surfaces of the candidates of clause
/// `current`, or nothing where there are no clauses.
pub open spec fn lists_clause(table: Seq<String>, clauses: Seq<Vec<Candidate>>, current: int) -> bool {
    if clauses.len() == 0 {
        table.len() == 0
    } else {
        &&& table.len() == clauses[current]@.len()
        &&& forall|q: int| 0 <= q < table.len() ==> (#[trigger] table[q])@ == clauses[current]@[q].kanji@
    }
}

/// Whether `clauses` are the clauses of the conversion of `yomi` by
/// `akaza`, each with all the ways of writing it.
pub open spec fn is_conversion(akaza: Akaza, yomi: Seq<char>, clauses: Seq<Vec<Candidate>>) -> bool {
    exists|l: LatticeGraph|
        {
            &&& #[trigger] akaza.is_lattice(l, yomi, None)
            &&& l.complete()
            &&& clauses.len() + 2 == best_path(l, l.last(), 0).len()
            &&& forall|c: int|
                0 <= c < clauses.len() ==> is_clause(
                    l,
                    best_path(l, l.last(), 0),
                    c + 1,
                    usize::MAX as int,
                    (#[trigger] clauses[c])@,
                )
        }
}

/// The state of one input session.
pub struct AkazaContext {
    input_mode: InputMode,
    cursor_pos: i32,
    preedit: String,
    lookup_table: Vec<String>,
    romkan: RomKanConverter,
    akaza: Akaza,
    clauses: Vec<Vec<Candidate>>,
    current_clause: usize,
    is_invalidate: bool,
}

impl AkazaContext {
    /// What has been typed and not yet committed.
    pub closed spec fn preedit(&self) -> Seq<char> {
        self.preedit@
    }

    /// The surfaces in the window of candidates.
    pub closed spec fn lookup_table(&self) -> Seq<String> {
        self.lookup_table@
    }

    /// The clauses of the last conversion, each with its candidates.
    pub closed spec fn clauses(&self) -> Seq<Vec<Candidate>> {
        self.clauses@
    }

    /// The clause whose candidates are on show.
    pub closed spec fn current_clause(&self) -> nat {
        self.current_clause as nat
    }

    /// The input mode.
    pub closed spec fn input_mode(&self) -> InputMode {
        self.input_mode
    }

    /// The engine.
    pub closed spec fn akaza(&self) -> Akaza {
        self.akaza
    }

    /// The table of the romaji converter.
    pub closed spec fn romkan_table(&self) -> Seq<(Seq<char>, Seq<char>)> {
        self.romkan.table()
    }

    /// The place of the cursor in what has been typed.
    pub closed spec fn cursor_pos(&self) -> int {
        self.cursor_pos as int
    }

    /// Whether what is on show is out of date.
    pub closed spec fn is_invalidate(&self) -> bool {
        self.is_invalidate
    }

    /// Whether the session has the engine, the romaji table and the cursor
    /// of `before`.
    pub open spec fn same_setup(&self, before: AkazaContext) -> bool {
        &&& self.akaza() == before.akaza()
        &&& self.romkan_table() == before.romkan_table()
        &&& self.cursor_pos() == before.cursor_pos()
    }

    /// What a well-formed session holds: a well-formed romaji table and a
    /// well-formed engine, a candidate in every clause, and a current
    /// clause that is one of the clauses if there are any.
    pub proof fn lemma_wf(&self)
        requires
            self.wf(),
        ensures
            table_wf(self.romkan_table()),
            self.akaza().wf(),
            self.clauses_ok(),
            self.clauses().len() > 0 ==> self.current_clause() < self.clauses().len(),
    {
    }

    /// What is typed in hiragana is shown as it is typed.
    pub proof fn lemma_hiragana_is_shown_as_typed(&self)
        requires
            self.wf(),
            forall|i: int| 0 <= i < self.preedit().len() ==> is_hiragana(#[trigger] self.preedit()[i]),
        ensures
            self.preedit().len() > 0 ==> !is_ascii_upper(self.preedit()[0]),
            converted(self.romkan_table(), self.preedit()) == self.preedit(),
            converted(self.romkan_table(), converted(self.romkan_table(), self.preedit()))
                == converted(self.romkan_table(), self.preedit()),
    {
        self.lemma_wf();
        lemma_hiragana_is_fixed(self.romkan_table(), self.preedit());
        if self.preedit().len() > 0 {
            assert(is_hiragana(self.preedit()[0]));
        }
    }

    /// The invariant of the session: its parts are well-formed, every
    /// clause has a candidate, and the current clause is one of the clauses
    /// if there are any.
    pub closed spec fn wf(&self) -> bool {
        &&& self.romkan.wf()
        &&& self.akaza.wf()
        &&& forall|c: int| 0 <= c < self.clauses@.len() ==> (#[trigger] self.clauses@[c])@.len() > 0
        &&& self.clauses@.len() > 0 ==> self.current_clause < self.clauses@.len()
    }

    /// Whether every clause has a candidate.
    pub open spec fn clauses_ok(&self) -> bool {
        forall|c: int| 0 <= c < self.clauses().len() ==> (#[trigger] self.clauses()[c])@.len() > 0
    }

    /// A session in which nothing has been typed.
    pub fn new(akaza: Akaza) -> (ctx: AkazaContext)
        requires
            akaza.wf(),
        ensures
            ctx.wf(),
            ctx.preedit().len() == 0,
            ctx.lookup_table().len() == 0,
            ctx.clauses().len() == 0,
            ctx.input_mode() == InputMode::Hiragana,
            ctx.romkan_table() == standard_table(),
            ctx.akaza() == akaza,
            ctx.current_clause() == 0,
            ctx.cursor_pos() == 0,
            !ctx.is_invalidate(),
    {
        AkazaContext {
            input_mode: InputMode::Hiragana,
            cursor_pos: 0,
            preedit: String::new(),
            lookup_table: Vec::new(),
            romkan: RomKanConverter::standard(),
            akaza,
            clauses: Vec::new(),
            current_clause: 0,
            is_invalidate: false,
        }
    }

    /// Takes `c` as typed: it is added to what has been typed.
    pub fn push_key(&mut self, c: char)
        requires
            old(self).wf(),
        ensures
            final(self).wf(),
            final(self).same_setup(*old(self)),
            final(self).is_invalidate() == old(self).is_invalidate(),
            final(self).preedit() == old(self).preedit().push(c),
            final(self).lookup_table() == old(self).lookup_table(),
            final(self).clauses() == old(self).clauses(),
            final(self).input_mode() == old(self).input_mode(),
    {
        crate::text::push_char(&mut self.preedit, c);
    }

    /// The surfaces in the window of candidates.
    pub fn candidates(&self) -> (r: &Vec<String>)
        ensures
            r@ == self.lookup_table(),
    {
        &self.lookup_table
    }

    /// Whether the candidates of a conversion are on show.
    pub fn in_henkan_mode(&self) -> (b: bool)
        ensures
            b == (self.lookup_table().len() > 0),
    {
        self.lookup_table.len() > 0
    }

    /// Where the session stands.
    pub fn get_key_state(&self) -> (state: KeyState)
        ensures
            state == if self.preedit().len() == 0 {
                KeyState::PreComposition
            } else if self.lookup_table().len() > 0 {
                KeyState::Conversion
            } else {
                KeyState::Composition
            },
    {
        if self.preedit.as_str().unicode_len() == 0 {
            KeyState::PreComposition
        } else if self.in_henkan_mode() {
            KeyState::Conversion
        } else {
            KeyState::Composition
        }
    }

    /// What has been typed, as a reading and as the text to show for it:
    /// both are what has been typed as it is if that starts with a capital
    /// letter, and else what has been typed in hiragana.
    pub fn make_preedit_word(&self) -> (r: (String, String))
        requires
            self.wf(),
        ensures
            r.0@ == r.1@,
            r.0@ == if self.preedit().len() > 0 && is_ascii_upper(self.preedit()[0]) {
                self.preedit()
            } else {
                converted(self.romkan_table(), self.preedit())
            },
    {
        let chars = to_chars(self.preedit.as_str());
        if chars.len() > 0 && 'A' <= chars[0] && chars[0] <= 'Z' {
            return (self.preedit.clone(), self.preedit.clone());
        }
        let yomi = self.romkan.to_hiragana(self.preedit.as_str());
        (yomi.clone(), yomi)
    }

    /// The text of the conversion: the first candidate of each clause, one
    /// after the other.
    pub fn build_string(&self) -> (s: String)
        requires
            self.clauses_ok(),
        ensures
            s@ == first_choices(self.clauses(), self.clauses().len()),
    {
        let mut s = String::new();
        let mut c: usize = 0;
        while c < self.clauses.len()
            invariant
                self.clauses_ok(),
                c <= self.clauses.len(),
                s@ == first_choices(self.clauses(), c as nat),
            decreases self.clauses.len() - c,
        {
            assert(self.clauses()[c as int]@.len() > 0);
            s.append(self.clauses[c][0].kanji.as_str());
            c = c + 1;
        }
        s
    }

    /// Commits `text`: the host hands it to the application, and the
    /// session starts anew.
    pub fn commit_string(&mut self, text: &str) -> (actions: Vec<EngineAction>)
        requires
            old(self).wf(),
        ensures
            final(self).wf(),
            final(self).same_setup(*old(self)),
            final(self).is_invalidate() == old(self).is_invalidate(),
            final(self).preedit().len() == 0,
            final(self).lookup_table().len() == 0,
            final(self).clauses() == old(self).clauses(),
            final(self).input_mode() == old(self).input_mode(),
            actions@.len() == 2,
            commits(actions@[0], text@),
            actions@[1] is HidePreeditText,
    {
        self.preedit = String::new();
        self.lookup_table = Vec::new();
        let mut actions: Vec<EngineAction> = Vec::new();
        actions.push(EngineAction::CommitText { text: String::from_str(text) });
        actions.push(EngineAction::HidePreeditText);
        actions
    }

    /// Commits the text of the conversion.
    pub fn commit_candidate(&mut self) -> (actions: Vec<EngineAction>)
        requires
            old(self).wf(),
        ensures
            final(self).wf(),
            final(self).same_setup(*old(self)),
            final(self).is_invalidate() == old(self).is_invalidate(),
            final(self).preedit().len() == 0,
            final(self).lookup_table().len() == 0,
            final(self).clauses() == old(self).clauses(),
            final(self).input_mode() == old(self).input_mode(),
            actions@.len() == 2,
            commits(actions@[0], first_choices(old(self).clauses(), old(self).clauses().len())),
            actions@[1] is HidePreeditText,
    {
        let s = self.build_string();
        self.commit_string(s.as_str())
    }

    /// Changes the input mode, after committing the text of the
    /// conversion.
    pub fn set_input_mode(&mut self, input_mode: InputMode) -> (actions: Vec<EngineAction>)
        requires
            old(self).wf(),
        ensures
            final(self).wf(),
            final(self).same_setup(*old(self)),
            final(self).is_invalidate() == old(self).is_invalidate(),
            final(self).input_mode() == input_mode,
            final(self).preedit().len() == 0,
            final(self).lookup_table().len() == 0,
            final(self).clauses() == old(self).clauses(),
            actions@.len() == 2,
            commits(actions@[0], first_choices(old(self).clauses(), old(self).clauses().len())),
            actions@[1] is HidePreeditText,
    {
        let actions = self.commit_candidate();
        self.input_mode = input_mode;
        actions
    }

    /// Fills the window of candidates with the surfaces of the candidates
    /// of the current clause; without clauses the window is empty.
    pub fn create_lookup_table(&mut self)
        requires
            old(self).wf(),
        ensures
            final(self).wf(),
            final(self).preedit() == old(self).preedit(),
            final(self).clauses() == old(self).clauses(),
            final(self).current_clause() == old(self).current_clause(),
            final(self).input_mode() == old(self).input_mode(),
            final(self).same_setup(*old(self)),
            final(self).is_invalidate() == old(self).is_invalidate(),
            lists_clause(
                final(self).lookup_table(),
                old(self).clauses(),
                old(self).current_clause() as int,
            ),
    {
        let mut table: Vec<String> = Vec::new();
        if self.clauses.len() > 0 {
            let nodes = &self.clauses[self.current_clause];
            let mut q: usize = 0;
            while q < nodes.len()
                invariant
                    q <= nodes.len(),
                    table.len() == q,
                    forall|p: int| 0 <= p < q ==> (#[trigger] table@[p])@ == nodes@[p].kanji@,
                decreases nodes.len() - q,
            {
                table.push(nodes[q].kanji.clone());
                q = q + 1;
            }
        }
        self.lookup_table = table;
    }

    /// What the host is to do with the window of candidates: show it if it
    /// has candidates, hide it if it has none.
    pub fn _update_lookup_table(&self) -> (action: EngineAction)
        ensures
            shows_lookup_table(action, self.lookup_table().len() > 0),
    {
        EngineAction::UpdateLookupTable { visible: self.lookup_table.len() > 0 }
    }

    /// What the host is to show of the conversion.
    ///
    /// Without clauses everything is hidden. Else the line above the
    /// candidates shows the reading of the first candidate of the current
    /// clause, and the composed text is the text of the conversion,
    /// underlined as a whole, with a background that starts after as many
    /// bytes as the first candidates of all clauses have together and is
    /// as long as the first candidate of the current clause.
    pub fn refresh(&mut self) -> (actions: Vec<EngineAction>)
        requires
            old(self).wf(),
        ensures
            final(self).wf(),
            final(self).preedit() == old(self).preedit(),
            final(self).clauses() == old(self).clauses(),
            final(self).lookup_table() == old(self).lookup_table(),
            final(self).current_clause() == old(self).current_clause(),
            final(self).input_mode() == old(self).input_mode(),
            final(self).same_setup(*old(self)),
            final(self).is_invalidate() == (old(self).clauses().len() == 0 && old(
                self,
            ).is_invalidate()),
            shows_conversion(
                actions@,
                old(self).clauses(),
                old(self).current_clause() as int,
                old(self).preedit().len() > 0,
                old(self).lookup_table().len() > 0,
            ),
    {
        let mut actions: Vec<EngineAction> = Vec::new();
        if self.clauses.len() == 0 {
            actions.push(EngineAction::HideAuxiliaryText);
            actions.push(EngineAction::HideLookupTable);
            actions.push(EngineAction::HidePreeditText);
            return actions;
        }
        let current_node = &self.clauses[self.current_clause][0];
        actions.push(
            EngineAction::UpdateAuxiliaryText {
                text: current_node.yomi.clone(),
                visible: self.preedit.as_str().unicode_len() > 0,
            },
        );
        let text = self.build_string();
        let width = str_byte_len(text.as_str());
        let mut start: usize = 0;
        let mut c: usize = 0;
        while c < self.clauses.len()
            invariant
                self.wf(),
                c <= self.clauses.len(),
                start == first_choice_bytes(self.clauses(), c as nat),
            decreases self.clauses.len() - c,
        {
            let len = str_byte_len(self.clauses[c][0].kanji.as_str());
            start = if len > usize::MAX - start {
                usize::MAX
            } else {
                start + len
            };
            c = c + 1;
        }
        let here = str_byte_len(current_node.kanji.as_str());
        let end: usize = if here > usize::MAX - start {
            usize::MAX
        } else {
            start + here
        };
        let visible = text.as_str().unicode_len() > 0;
        actions.push(
            EngineAction::UpdatePreeditText {
                text,
                underline_to: width,
                background: Some((start, end)),
                cursor: width,
                visible,
            },
        );
        actions.push(self._update_lookup_table());
        self.is_invalidate = false;
        actions
    }

    /// Converts what has been typed, fills the window of candidates, and
    /// says what the host is to show. With nothing typed there are no
    /// clauses. An error of the conversion leaves the session as it was.
    pub fn _update_candidates(&mut self) -> (r: Result<Vec<EngineAction>, AkazaError>)
        requires
            old(self).wf(),
        ensures
            final(self).wf(),
            final(self).preedit() == old(self).preedit(),
            final(self).input_mode() == old(self).input_mode(),
            final(self).same_setup(*old(self)),
            final(self).is_invalidate() == (if r is Ok {
                final(self).clauses().len() == 0 && old(self).is_invalidate()
            } else {
                old(self).is_invalidate()
            }),
            r matches Err(e) ==> e == AkazaError::ReadingTooLong,
            r is Err ==> final(self).clauses() == old(self).clauses() && final(self).lookup_table()
                == old(self).lookup_table() && final(self).current_clause() == old(
                self,
            ).current_clause(),
            r is Err <==> old(self).preedit().len() > 0 && byte_len(old(self).preedit()) + 2
                > usize::MAX,
            r is Ok ==> {
                &&& if old(self).preedit().len() == 0 {
                    final(self).clauses().len() == 0
                } else {
                    is_conversion(old(self).akaza(), old(self).preedit(), final(self).clauses())
                        && final(self).current_clause() == 0
                }
                &&& lists_clause(
                    final(self).lookup_table(),
                    final(self).clauses(),
                    final(self).current_clause() as int,
                )
                &&& shows_conversion(
                    r->Ok_0@,
                    final(self).clauses(),
                    final(self).current_clause() as int,
                    old(self).preedit().len() > 0,
                    final(self).lookup_table().len() > 0,
                )
            },
    {
        if self.preedit.as_str().unicode_len() == 0 {
            self.clauses = Vec::new();
        } else {
            match self.akaza.convert(self.preedit.as_str(), None) {
                Ok(clauses) => {
                    self.clauses = clauses;
                    self.current_clause = 0;
                },
                Err(e) => {
                    return Err(e);
                },
            }
        }
        self.create_lookup_table();
        Ok(self.refresh())
    }

    /// Converts what has been typed and says what the host is to show.
    /// Where the conversion fails, there are no clauses and everything is
    /// hidden.
    pub fn update_candidates(&mut self) -> (actions: Vec<EngineAction>)
        requires
            old(self).wf(),
        ensures
            final(self).wf(),
            final(self).preedit() == old(self).preedit(),
            final(self).input_mode() == old(self).input_mode(),
            final(self).same_setup(*old(self)),
            final(self).is_invalidate() == (final(self).clauses().len() == 0 && old(
                self,
            ).is_invalidate()),
            if old(self).preedit().len() == 0 || byte_len(old(self).preedit()) + 2 > usize::MAX {
                final(self).clauses().len() == 0
            } else {
                is_conversion(old(self).akaza(), old(self).preedit(), final(self).clauses())
                    && final(self).current_clause() == 0
            },
            lists_clause(
                final(self).lookup_table(),
                final(self).clauses(),
                final(self).current_clause() as int,
            ),
            shows_conversion(
                actions@,
                final(self).clauses(),
                final(self).current_clause() as int,
                old(self).preedit().len() > 0,
                final(self).lookup_table().len() > 0,
            ),
    {
        match self._update_candidates() {
            Ok(actions) => actions,
            Err(_) => {
                self.clauses = Vec::new();
                self.create_lookup_table();
                self.refresh()
            },
        }
    }

    /// What the host is to show of what has been typed, before it is
    /// converted: nothing typed hides the window of candidates; else the
    /// text to show is underlined as a whole.
    pub fn update_preedit_text_before_henkan(&self) -> (actions: Vec<EngineAction>)
        requires
            self.wf(),
        ensures
            actions@.len() == 1,
            shows_typed(actions@[0], self.preedit(), self.romkan_table()),
    {
        let mut actions: Vec<EngineAction> = Vec::new();
        if self.preedit.as_str().unicode_len() == 0 {
            actions.push(EngineAction::HideLookupTable);
            return actions;
        }
        let (_yomi, word) = self.make_preedit_word();
        let width = str_byte_len(word.as_str());
        let visible = word.as_str().unicode_len() > 0;
        actions.push(
            EngineAction::UpdatePreeditText {
                text: word,
                underline_to: width,
                background: None,
                cursor: width,
                visible,
            },
        );
        actions
    }

    /// Takes back the last thing typed. While candidates are on show, they
    /// are put away and what has been typed stays; else what has been typed
    /// loses its last character and the consonants that stood before it.
    pub fn erase_character_before_cursor(&mut self) -> (actions: Vec<EngineAction>)
        requires
            old(self).wf(),
        ensures
            final(self).wf(),
            final(self).same_setup(*old(self)),
            final(self).is_invalidate() == old(self).is_invalidate(),
            final(self).lookup_table().len() == 0,
            final(self).clauses() == old(self).clauses(),
            final(self).input_mode() == old(self).input_mode(),
            final(self).preedit() == if old(self).lookup_table().len() > 0 {
                old(self).preedit()
            } else {
                without_last(old(self).preedit())
            },
            old(self).lookup_table().len() > 0 ==> actions@.len() == 3 && actions@[0]
                is HideAuxiliaryText && actions@[1] is HideLookupTable,
            old(self).lookup_table().len() == 0 ==> actions@.len() == 1,
            shows_typed(
                actions@[actions@.len() - 1],
                final(self).preedit(),
                final(self).romkan_table(),
            ),
    {
        let mut actions: Vec<EngineAction> = Vec::new();
        if self.in_henkan_mode() {
            self.lookup_table = Vec::new();
            actions.push(EngineAction::HideAuxiliaryText);
            actions.push(EngineAction::HideLookupTable);
        } else {
            self.preedit = self.romkan.remove_last_char(self.preedit.as_str());
        }
        let mut shown = self.update_preedit_text_before_henkan();
        actions.append(&mut shown);
        actions
    }
}

impl AkazaContext {
    /// Runs the command with the name `function_name`, and says whether
    /// there is one and what the host is to do. A name without a command
    /// changes nothing.
    pub fn run_callback_by_name(&mut self, function_name: &str) -> (r: (bool, Vec<EngineAction>))
        requires
            old(self).wf(),
        ensures
            final(self).wf(),
            r.0 == command_named(function_name@) is Some,
            final(self).same_setup(*old(self)),
            final(self).is_invalidate() == (if command_named(function_name@) == Some(
                Command::UpdateCandidates,
            ) {
                final(self).clauses().len() == 0 && old(self).is_invalidate()
            } else {
                old(self).is_invalidate()
            }),
            match command_named(function_name@) {
                None => {
                    &&& r.1@.len() == 0
                    &&& final(self).preedit() == old(self).preedit()
                    &&& final(self).clauses() == old(self).clauses()
                    &&& final(self).lookup_table() == old(self).lookup_table()
                    &&& final(self).input_mode() == old(self).input_mode()
                },
                Some(Command::CommitCandidate) => {
                    &&& final(self).preedit().len() == 0
                    &&& final(self).lookup_table().len() == 0
                    &&& final(self).input_mode() == old(self).input_mode()
                    &&& r.1@.len() == 2
                    &&& commits(r.1@[0], first_choices(old(self).clauses(), old(self).clauses().len()))
                },
                Some(Command::UpdateCandidates) => {
                    &&& final(self).preedit() == old(self).preedit()
                    &&& final(self).input_mode() == old(self).input_mode()
                    &&& lists_clause(
                        final(self).lookup_table(),
                        final(self).clauses(),
                        final(self).current_clause() as int,
                    )
                    &&& shows_conversion(
                        r.1@,
                        final(self).clauses(),
                        final(self).current_clause() as int,
                        old(self).preedit().len() > 0,
                        final(self).lookup_table().len() > 0,
                    )
                },
                Some(Command::EraseCharacterBeforeCursor) => {
                    &&& r.1@.len() >= 1
                    &&& shows_typed(
                        r.1@[r.1@.len() - 1],
                        final(self).preedit(),
                        final(self).romkan_table(),
                    )
                    &&& final(self).lookup_table().len() == 0
                    &&& final(self).input_mode() == old(self).input_mode()
                    &&& final(self).preedit() == if old(self).lookup_table().len() > 0 {
                        old(self).preedit()
                    } else {
                        without_last(old(self).preedit())
                    }
                },
                Some(Command::SetInputModeHiragana) => {
                    &&& final(self).input_mode() == InputMode::Hiragana
                    &&& final(self).preedit().len() == 0
                    &&& r.1@.len() == 2
                    &&& commits(r.1@[0], first_choices(old(self).clauses(), old(self).clauses().len()))
                },
                Some(Command::SetInputModeAlnum) => {
                    &&& final(self).input_mode() == InputMode::Alnum
                    &&& final(self).preedit().len() == 0
                    &&& r.1@.len() == 2
                    &&& commits(r.1@[0], first_choices(old(self).clauses(), old(self).clauses().len()))
                },
            },
    {
        match command_by_name(function_name) {
            None => (false, Vec::new()),
            Some(Command::CommitCandidate) => (true, self.commit_candidate()),
            Some(Command::UpdateCandidates) => (true, self.update_candidates()),
            Some(Command::EraseCharacterBeforeCursor) => (true, self.erase_character_before_cursor()),
            Some(Command::SetInputModeHiragana) => (true, self.set_input_mode(InputMode::Hiragana)),
            Some(Command::SetInputModeAlnum) => (true, self.set_input_mode(InputMode::Alnum)),
        }
    }
}

} // verus!
