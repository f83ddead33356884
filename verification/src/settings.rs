//! The power at which a process is drawn in a warmer color, and the dialog that changes it.
use vstd::prelude::*;

use crate::binary64::Binary64;
use crate::graph::HeatColor;

verus! {

/// The bits of `40.0`.
pub const YELLOW_START_BITS: u64 = 0x4044_0000_0000_0000;

/// The bits of `85.0`.
pub const ORANGE_START_BITS: u64 = 0x4055_4000_0000_0000;

/// The bits of `140.0`.
pub const RED_START_BITS: u64 = 0x4061_8000_0000_0000;

#[derive(Debug, Clone, Copy, PartialEq, Eq, Structural)]
pub enum KeyEventKind {
    Press,
    Repeat,
    Release,
}

/// A key; those that mean nothing here are all `Other`.
#[derive(Debug, Clone, Copy, PartialEq, Eq, Structural)]
pub enum KeyCode {
    Char(char),
    Enter,
    Esc,
    Backspace,
    Up,
    Down,
    Tab,
    BackTab,
    Other,
}

#[derive(Debug, Clone, Copy, PartialEq, Eq, Structural)]
pub struct KeyEvent {
    pub code: KeyCode,
    pub kind: KeyEventKind,
}

/// Where the colors start.
#[derive(Debug, Clone, Copy, PartialEq, Eq, Structural)]
pub struct GraphHeatSettings {
    pub yellow_start: Binary64,
    pub orange_start: Binary64,
    pub red_start: Binary64,
}

pub open spec fn is_threshold(value: Binary64) -> bool {
    value.finite() && !value.lt(Binary64 { bits: 0 })
}

impl GraphHeatSettings {
    pub open spec fn usual() -> GraphHeatSettings {
        GraphHeatSettings {
            yellow_start: Binary64 { bits: YELLOW_START_BITS },
            orange_start: Binary64 { bits: ORANGE_START_BITS },
            red_start: Binary64 { bits: RED_START_BITS },
        }
    }

    pub open spec fn all_thresholds(self) -> bool {
        is_threshold(self.yellow_start) && is_threshold(self.orange_start) && is_threshold(
            self.red_start,
        )
    }

    pub open spec fn ascending(self) -> bool {
        self.yellow_start.lt(self.orange_start) && self.orange_start.lt(self.red_start)
    }

    /// What is wrong with the thresholds.
    pub open spec fn fault(self) -> Option<Seq<char>> {
        if !self.all_thresholds() {
            Some("thresholds must be finite numbers >= 0"@)
        } else if !self.ascending() {
            Some("thresholds must satisfy yellow < orange < red"@)
        } else {
            None
        }
    }

    pub open spec fn heat(self, power: Binary64) -> HeatColor {
        if self.red_start.le(power) {
            HeatColor::Red
        } else if self.orange_start.le(power) {
            HeatColor::Orange
        } else if self.yellow_start.le(power) {
            HeatColor::Yellow
        } else {
            HeatColor::Green
        }
    }

    pub fn validate(&self) -> (r: Result<(), String>)
        ensures
            match self.fault() {
                Some(message) => r is Err && r->Err_0@ == message,
                None => r is Ok,
            },
    {
        if !threshold(self.yellow_start) || !threshold(self.orange_start) || !threshold(
            self.red_start,
        ) {
            return Err("thresholds must be finite numbers >= 0".to_string());
        }
        if !(self.yellow_start.is_below(self.orange_start) && self.orange_start.is_below(
            self.red_start,
        )) {
            return Err("thresholds must satisfy yellow < orange < red".to_string());
        }
        Ok(())
    }

    pub fn color_for_power(&self, power: Binary64) -> (color: HeatColor)
        ensures
            color == self.heat(power),
    {
        if self.red_start.is_at_most(power) {
            HeatColor::Red
        } else if self.orange_start.is_at_most(power) {
            HeatColor::Orange
        } else if self.yellow_start.is_at_most(power) {
            HeatColor::Yellow
        } else {
            HeatColor::Green
        }
    }
}

impl Default for GraphHeatSettings {
    fn default() -> (settings: GraphHeatSettings)
        ensures
            settings == GraphHeatSettings::usual(),
    {
        GraphHeatSettings {
            yellow_start: Binary64::from_bits(YELLOW_START_BITS),
            orange_start: Binary64::from_bits(ORANGE_START_BITS),
            red_start: Binary64::from_bits(RED_START_BITS),
        }
    }
}

fn threshold(value: Binary64) -> (b: bool)
    ensures
        b == is_threshold(value),
{
    value.is_finite() && !value.is_below(Binary64::zero())
}

#[derive(Debug, Clone, Copy, PartialEq, Eq, Structural)]
pub struct AppSettings {
    pub graph_heat: GraphHeatSettings,
}

impl AppSettings {
    pub open spec fn usual() -> AppSettings {
        AppSettings { graph_heat: GraphHeatSettings::usual() }
    }
}

impl Default for AppSettings {
    fn default() -> (settings: AppSettings)
        ensures
            settings == AppSettings::usual(),
    {
        AppSettings { graph_heat: GraphHeatSettings::default() }
    }
}

#[derive(Debug, Clone, Copy, PartialEq, Eq, Structural)]
pub enum SettingsField {
    YellowStart,
    OrangeStart,
    RedStart,
}

pub const SETTINGS_FIELD_COUNT: usize = 3;

impl SettingsField {
    /// The field in a row of the dialog; past the last it is the last.
    pub open spec fn nth(row: int) -> SettingsField {
        if row == 0 {
            SettingsField::YellowStart
        } else if row == 1 {
            SettingsField::OrangeStart
        } else {
            SettingsField::RedStart
        }
    }

    pub open spec fn name(self) -> Seq<char> {
        match self {
            SettingsField::YellowStart => "yellow start"@,
            SettingsField::OrangeStart => "orange start"@,
            SettingsField::RedStart => "red start"@,
        }
    }

    pub open spec fn of(self, settings: AppSettings) -> Binary64 {
        match self {
            SettingsField::YellowStart => settings.graph_heat.yellow_start,
            SettingsField::OrangeStart => settings.graph_heat.orange_start,
            SettingsField::RedStart => settings.graph_heat.red_start,
        }
    }

    pub open spec fn set(self, settings: AppSettings, value: Binary64) -> AppSettings {
        AppSettings {
            graph_heat: match self {
                SettingsField::YellowStart => GraphHeatSettings {
                    yellow_start: value,
                    ..settings.graph_heat
                },
                SettingsField::OrangeStart => GraphHeatSettings {
                    orange_start: value,
                    ..settings.graph_heat
                },
                SettingsField::RedStart => GraphHeatSettings {
                    red_start: value,
                    ..settings.graph_heat
                },
            },
        }
    }

    pub fn at(row: usize) -> (field: SettingsField)
        ensures
            field == SettingsField::nth(row as int),
    {
        if row == 0 {
            SettingsField::YellowStart
        } else if row == 1 {
            SettingsField::OrangeStart
        } else {
            SettingsField::RedStart
        }
    }

    pub fn label(self) -> (label: &'static str)
        ensures
            label@ == self.name(),
    {
        match self {
            SettingsField::YellowStart => "yellow start",
            SettingsField::OrangeStart => "orange start",
            SettingsField::RedStart => "red start",
        }
    }

    pub fn value(self, settings: &AppSettings) -> (value: Binary64)
        ensures
            value == self.of(*settings),
    {
        match self {
            SettingsField::YellowStart => settings.graph_heat.yellow_start,
            SettingsField::OrangeStart => settings.graph_heat.orange_start,
            SettingsField::RedStart => settings.graph_heat.red_start,
        }
    }

    pub fn set_value(self, settings: &mut AppSettings, value: Binary64)
        ensures
            *final(settings) == self.set(*old(settings), value),
    {
        match self {
            SettingsField::YellowStart => {
                settings.graph_heat.yellow_start = value;
            },
            SettingsField::OrangeStart => {
                settings.graph_heat.orange_start = value;
            },
            SettingsField::RedStart => {
                settings.graph_heat.red_start = value;
            },
        }
    }
}

/// A text without the characters `c` at its end.
pub open spec fn without_trailing(s: Seq<char>, c: char) -> Seq<char>
    decreases s.len(),
{
    if s.len() > 0 && s.last() == c {
        without_trailing(s.drop_last(), c)
    } else {
        s
    }
}

/// A value with at most one digit behind the point, and no needless zeros there.
pub open spec fn setting_text(value: Binary64) -> Seq<char> {
    let shown = crate::decimal::fixed_text(value, 1);
    let short = if shown.contains('.') {
        let cut = without_trailing(shown, '0');
        if cut.len() > 0 && cut.last() == '.' {
            cut.drop_last()
        } else {
            cut
        }
    } else {
        shown
    };
    if short.len() == 0 {
        seq!['0']
    } else {
        short
    }
}

pub fn format_setting_value(value: Binary64) -> (text: String)
    ensures
        text@ == setting_text(value),
{
    let mut chars: Vec<char> = crate::decimal::fixed_chars(value, 1);
    let ghost shown = chars@;
    let mut has_point: bool = false;
    let mut i: usize = 0;
    while i < chars.len()
        invariant
            i <= chars@.len(),
            has_point == chars@.take(i as int).contains('.'),
        decreases chars@.len() - i,
    {
        proof {
            let part = chars@.take(i as int);
            let more = chars@.take(i + 1);
            assert(more =~= part.push(chars@[i as int]));
            if part.contains('.') {
                let k = choose|k: int| 0 <= k < part.len() && part[k] == '.';
                assert(more[k] == '.');
            }
            if more.contains('.') && chars@[i as int] != '.' {
                let k = choose|k: int| 0 <= k < more.len() && more[k] == '.';
                assert(part[k] == '.');
            }
            assert(more[i as int] == chars@[i as int]);
        }
        if chars[i] == '.' {
            has_point = true;
        }
        i = i + 1;
    }
    proof {
        assert(chars@.take(i as int) =~= chars@);
    }
    if has_point {
        while chars.len() > 0 && chars[chars.len() - 1] == '0'
            invariant
                without_trailing(chars@, '0') == without_trailing(shown, '0'),
            decreases chars@.len(),
        {
            let ghost before = chars@;
            let _ = chars.pop();
            proof {
                assert(chars@ =~= before.drop_last());
            }
        }
        if chars.len() > 0 && chars[chars.len() - 1] == '.' {
            let ghost before = chars@;
            let _ = chars.pop();
            proof {
                assert(chars@ =~= before.drop_last());
            }
        }
    }
    if chars.len() == 0 {
        chars.push('0');
        proof {
            assert(chars@ =~= seq!['0']);
        }
    }
    crate::text::string_of(&chars)
}

#[derive(Debug)]
pub struct SettingsEditState {
    pub field: SettingsField,
    pub buffer: String,
}

#[verifier::ext_equal]
pub struct SettingsEditModel {
    pub field: SettingsField,
    pub buffer: Seq<char>,
}

impl View for SettingsEditState {
    type V = SettingsEditModel;

    open spec fn view(&self) -> SettingsEditModel {
        SettingsEditModel { field: self.field, buffer: self.buffer@ }
    }
}

/// The settings dialog: thresholds that are not yet in force.
#[derive(Debug)]
pub struct SettingsModalState {
    pub draft: AppSettings,
    pub selected: usize,
    pub editing: Option<SettingsEditState>,
    pub error: Option<String>,
}

#[verifier::ext_equal]
pub struct SettingsModalModel {
    pub draft: AppSettings,
    pub selected: usize,
    pub editing: Option<SettingsEditModel>,
    pub error: Option<Seq<char>>,
}

impl View for SettingsModalState {
    type V = SettingsModalModel;

    open spec fn view(&self) -> SettingsModalModel {
        SettingsModalModel {
            draft: self.draft,
            selected: self.selected,
            editing: match self.editing {
                Some(edit) => Some(edit@),
                None => None,
            },
            error: crate::text::text_of(self.error),
        }
    }
}

/// Whether a text holds no exponent mark.
pub open spec fn plain(s: Seq<char>) -> bool {
    forall|i: int| 0 <= i < s.len() ==> #[trigger] s[i] != 'e' && s[i] != 'E'
}

/// What a key does to the dialog: how it stands, or that it is closed, and the settings that come
/// into force.
#[verifier::ext_equal]
pub struct ModalStep {
    pub modal: Option<SettingsModalModel>,
    pub applied: Option<AppSettings>,
}

impl SettingsModalModel {
    pub open spec fn opened(settings: AppSettings) -> SettingsModalModel {
        SettingsModalModel { draft: settings, selected: 0, editing: None, error: None }
    }

    /// Whether what is being typed is a number without an exponent, as far as it is one.
    pub open spec fn wf(self) -> bool {
        self.editing matches Some(edit) ==> plain(edit.buffer)
    }

    pub open spec fn moved(self, delta: int) -> SettingsModalModel {
        SettingsModalModel {
            selected: ((self.selected + delta) % SETTINGS_FIELD_COUNT as int) as usize,
            ..self
        }
    }

    pub open spec fn edit_started(self) -> SettingsModalModel {
        let field = SettingsField::nth(self.selected as int);
        SettingsModalModel {
            editing: Some(
                SettingsEditModel { field, buffer: setting_text(field.of(self.draft)) },
            ),
            error: None,
            ..self
        }
    }

    pub open spec fn shown(self, field: SettingsField) -> Seq<char> {
        match self.editing {
            Some(edit) => if edit.field == field {
                edit.buffer
            } else {
                setting_text(field.of(self.draft))
            },
            None => setting_text(field.of(self.draft)),
        }
    }

    /// Takes what was typed, if it is a threshold.
    pub open spec fn confirmed(self, edit: SettingsEditModel) -> SettingsModalModel {
        match crate::decimal::parsed(crate::text::trimmed(edit.buffer)) {
            Some(value) => if value.finite() && (Binary64 { bits: 0 }).le(value) {
                SettingsModalModel {
                    draft: edit.field.set(self.draft, value),
                    editing: None,
                    error: None,
                    ..self
                }
            } else {
                SettingsModalModel {
                    error: Some("value must be a finite number >= 0"@),
                    ..self
                }
            },
            None => SettingsModalModel { error: Some("invalid number"@), ..self },
        }
    }

    /// A key while a value is being typed.
    pub open spec fn typed(self, edit: SettingsEditModel, code: KeyCode) -> SettingsModalModel {
        match code {
            KeyCode::Esc => SettingsModalModel { editing: None, error: None, ..self },
            KeyCode::Enter => self.confirmed(edit),
            KeyCode::Backspace => SettingsModalModel {
                editing: Some(
                    SettingsEditModel {
                        buffer: if edit.buffer.len() > 0 {
                            edit.buffer.drop_last()
                        } else {
                            edit.buffer
                        },
                        ..edit
                    },
                ),
                error: None,
                ..self
            },
            KeyCode::Char(c) => if crate::text::is_digit(c) || c == '.' || (c == '-'
                && edit.buffer.len() == 0) {
                SettingsModalModel {
                    editing: Some(SettingsEditModel { buffer: edit.buffer.push(c), ..edit }),
                    error: None,
                    ..self
                }
            } else {
                self
            },
            _ => self,
        }
    }

    /// A key while a field is being chosen.
    pub open spec fn chosen(self, code: KeyCode) -> ModalStep {
        match code {
            KeyCode::Esc => ModalStep { modal: None, applied: None },
            KeyCode::Enter => ModalStep { modal: Some(self.edit_started()), applied: None },
            KeyCode::Down | KeyCode::Tab | KeyCode::Char('j') => ModalStep {
                modal: Some(SettingsModalModel { error: None, ..self.moved(1) }),
                applied: None,
            },
            KeyCode::Up | KeyCode::BackTab | KeyCode::Char('k') => ModalStep {
                modal: Some(SettingsModalModel { error: None, ..self.moved(-1) }),
                applied: None,
            },
            KeyCode::Char('m') | KeyCode::Char('M') => match self.draft.graph_heat.fault() {
                Some(message) => ModalStep {
                    modal: Some(SettingsModalModel { error: Some(message), ..self }),
                    applied: None,
                },
                None => ModalStep { modal: None, applied: Some(self.draft) },
            },
            _ => ModalStep { modal: Some(self), applied: None },
        }
    }

    pub open spec fn after(self, code: KeyCode) -> ModalStep {
        match self.editing {
            Some(edit) => ModalStep { modal: Some(self.typed(edit, code)), applied: None },
            None => self.chosen(code),
        }
    }
}

proof fn lemma_fixed_text_is_plain(value: Binary64)
    ensures
        plain(crate::decimal::fixed_text(value, 1)),
{
    let scaled = crate::binary64::round_half_even(
        crate::binary64::units(value.magnitude() as nat) * crate::decimal::ten_to(1),
        vstd::arithmetic::power2::pow2(1074),
    );
    crate::text::lemma_decimal_text(scaled / 10);
    let digits = crate::text::decimal_text(scaled / 10);
    assert forall|i: int| 0 <= i < digits.len() implies #[trigger] digits[i] != 'e' && digits[i]
        != 'E' by {
        assert(crate::text::is_digit(digits[i]));
    }
    let text = crate::decimal::fixed_text(value, 1);
    let sign: Seq<char> = if value.negative() {
        seq!['-']
    } else {
        Seq::empty()
    };
    let last = crate::text::digit_char(scaled % 10);
    assert(last != 'e' && last != 'E');
    if value.finite() {
        assert(text =~= sign + digits.push('.').push(last));
        assert forall|i: int| 0 <= i < text.len() implies #[trigger] text[i] != 'e' && text[i]
            != 'E' by {
            if sign.len() <= i < sign.len() + digits.len() {
                assert(text[i] == digits[i - sign.len()]);
            }
        }
    }
}

proof fn lemma_without_trailing_is_plain(s: Seq<char>, c: char)
    requires
        plain(s),
    ensures
        plain(without_trailing(s, c)),
    decreases s.len(),
{
    if s.len() > 0 && s.last() == c {
        assert(plain(s.drop_last())) by {
            assert forall|i: int| 0 <= i < s.drop_last().len() implies #[trigger] s.drop_last()[i]
                != 'e' && s.drop_last()[i] != 'E' by {
                assert(s[i] != 'e' && s[i] != 'E');
            }
        }
        lemma_without_trailing_is_plain(s.drop_last(), c);
    }
}

proof fn lemma_setting_text_is_plain(value: Binary64)
    ensures
        plain(setting_text(value)),
{
    let shown = crate::decimal::fixed_text(value, 1);
    lemma_fixed_text_is_plain(value);
    lemma_without_trailing_is_plain(shown, '0');
    let cut = without_trailing(shown, '0');
    if cut.len() > 0 {
        assert forall|i: int| 0 <= i < cut.drop_last().len() implies #[trigger] cut.drop_last()[i]
            != 'e' && cut.drop_last()[i] != 'E' by {
            assert(cut[i] != 'e' && cut[i] != 'E');
        }
    }
}

/// No key brings an exponent mark into what is being typed.
pub proof fn law_typing_stays_plain(modal: SettingsModalModel, code: KeyCode)
    requires
        modal.wf(),
    ensures
        modal.after(code).modal matches Some(next) ==> next.wf(),
{
    lemma_setting_text_is_plain(
        SettingsField::nth(modal.selected as int).of(modal.draft),
    );
    if let Some(edit) = modal.editing {
        if edit.buffer.len() > 0 {
            let shorter = edit.buffer.drop_last();
            assert forall|i: int| 0 <= i < shorter.len() implies #[trigger] shorter[i] != 'e'
                && shorter[i] != 'E' by {
                assert(edit.buffer[i] != 'e' && edit.buffer[i] != 'E');
            }
        }
        if let KeyCode::Char(c) = code {
            let longer = edit.buffer.push(c);
            if crate::text::is_digit(c) || c == '.' || c == '-' {
                assert forall|i: int| 0 <= i < longer.len() implies #[trigger] longer[i] != 'e'
                    && longer[i] != 'E' by {
                    if i < edit.buffer.len() {
                        assert(edit.buffer[i] != 'e' && edit.buffer[i] != 'E');
                    }
                }
            }
        }
    }
}

/// Only thresholds without a fault come into force, and all else leaves the settings alone.
pub proof fn law_only_sound_settings_apply(modal: SettingsModalModel, code: KeyCode)
    ensures
        modal.after(code).applied matches Some(settings) ==> settings == modal.draft
            && settings.graph_heat.all_thresholds() && settings.graph_heat.ascending()
            && modal.after(code).modal is None,
{
}

impl SettingsModalState {
    pub fn new(current: &AppSettings) -> (modal: SettingsModalState)
        ensures
            modal@ == SettingsModalModel::opened(*current),
    {
        SettingsModalState { draft: *current, selected: 0, editing: None, error: None }
    }

    fn selected_field(&self) -> (field: SettingsField)
        ensures
            field == SettingsField::nth(self.selected as int),
    {
        SettingsField::at(self.selected)
    }

    fn move_selection(&mut self, delta: isize)
        ensures
            final(self)@ == old(self)@.moved(delta as int),
    {
        let lifted: i128 = self.selected as i128 + delta as i128 + 0x3_0000_0000_0000_0000;
        proof {
            vstd::arithmetic::div_mod::lemma_mod_multiples_vanish(
                0x1_0000_0000_0000_0000,
                self.selected + delta,
                3,
            );
        }
        self.selected = (lifted as u128 % 3) as usize;
    }

    fn start_edit(&mut self)
        ensures
            final(self)@ == old(self)@.edit_started(),
    {
        let field: SettingsField = self.selected_field();
        let buffer: String = format_setting_value(field.value(&self.draft));
        self.editing = Some(SettingsEditState { field, buffer });
        self.error = None;
    }

    /// What a field's row shows: what is being typed into it, or its value.
    pub fn display_value(&self, field: SettingsField) -> (text: String)
        ensures
            text@ == self@.shown(field),
    {
        if let Some(edit) = &self.editing {
            if edit.field == field {
                return edit.buffer.clone();
            }
        }
        format_setting_value(field.value(&self.draft))
    }

    /// Takes what was typed.
    fn confirm(&mut self, edit: SettingsEditState)
        requires
            old(self).editing is None,
        ensures
            final(self)@ == (SettingsModalModel {
                editing: Some(edit@),
                ..old(self)@
            }).confirmed(edit@),
    {
        let typed: Vec<char> = crate::text::trim_chars(
            &crate::text::chars_of(edit.buffer.as_str()),
        );
        match crate::decimal::parse(&typed) {
            Some(value) => {
                if value.is_finite() && Binary64::zero().is_at_most(value) {
                    edit.field.set_value(&mut self.draft, value);
                    self.error = None;
                } else {
                    self.error = Some("value must be a finite number >= 0".to_string());
                    self.editing = Some(edit);
                }
            },
            None => {
                self.error = Some("invalid number".to_string());
                self.editing = Some(edit);
            },
        }
    }

    fn type_key(&mut self, edit: SettingsEditState, code: KeyCode)
        requires
            old(self).editing is None,
        ensures
            final(self)@ == (SettingsModalModel {
                editing: Some(edit@),
                ..old(self)@
            }).typed(edit@, code),
    {
        let mut edit: SettingsEditState = edit;
        match code {
            KeyCode::Esc => {
                self.error = None;
            },
            KeyCode::Enter => {
                self.confirm(edit);
            },
            KeyCode::Backspace => {
                let _ = edit.buffer.pop();
                self.editing = Some(edit);
                self.error = None;
            },
            KeyCode::Char(c) => {
                let empty: bool = crate::text::is_empty(edit.buffer.as_str());
                if ('0' <= c && c <= '9') || c == '.' || (c == '-' && empty) {
                    edit.buffer.push(c);
                    self.error = None;
                }
                self.editing = Some(edit);
            },
            _ => {
                self.editing = Some(edit);
            },
        }
    }

    /// Handles a key. The answer says whether the dialog stays open, and which settings come into
    /// force.
    pub fn handle_key(&mut self, code: KeyCode) -> (r: (bool, Option<AppSettings>))
        requires
            old(self)@.wf(),
        ensures
            r.0 == old(self)@.after(code).modal is Some,
            r.0 ==> Some(final(self)@) == old(self)@.after(code).modal,
            r.1 == old(self)@.after(code).applied,
            final(self)@.wf(),
    {
        proof {
            law_typing_stays_plain(self@, code);
        }
        if let Some(edit) = self.editing.take() {
            self.type_key(edit, code);
            return (true, None);
        }
        match code {
            KeyCode::Esc => (false, None),
            KeyCode::Enter => {
                self.start_edit();
                (true, None)
            },
            KeyCode::Down | KeyCode::Tab | KeyCode::Char('j') => {
                self.move_selection(1);
                self.error = None;
                (true, None)
            },
            KeyCode::Up | KeyCode::BackTab | KeyCode::Char('k') => {
                self.move_selection(-1);
                self.error = None;
                (true, None)
            },
            KeyCode::Char('m') | KeyCode::Char('M') => {
                match self.draft.graph_heat.validate() {
                    Ok(_) => (false, Some(self.draft)),
                    Err(message) => {
                        self.error = Some(message);
                        (true, None)
                    },
                }
            },
            _ => (true, None),
        }
    }
}

} // verus!
