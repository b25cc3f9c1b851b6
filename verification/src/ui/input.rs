//! What a key does.
use vstd::prelude::*;

use crate::app::{App, AppView, DeletePlan, PlanView};

verus! {

/// A key, as far as it does something here.
#[derive(Clone, Copy, Debug, PartialEq, Eq, Structural)]
pub enum KeyCode {
    Char(char),
    Enter,
    Esc,
    Backspace,
    Down,
    Up,
    PageDown,
    PageUp,
    /// Any other key.
    Other,
}

/// A key press.
#[derive(Clone, Copy, Debug, PartialEq, Eq, Structural)]
pub struct KeyEvent {
    pub code: KeyCode,
    /// Whether the control key, and no other modifier, was held.
    pub control: bool,
}

/// What the event loop does after a key press.
#[derive(Debug)]
pub enum Action {
    Continue,
    Quit,
    Rescan,
    /// Delete a directory, and report to `App::finish_delete` how it went.
    Delete(DeletePlan),
}

/// What an `Action` says.
#[verifier::ext_equal]
pub enum ActionView {
    Continue,
    Quit,
    Rescan,
    Delete(PlanView),
}

impl View for Action {
    type V = ActionView;

    open spec fn view(&self) -> ActionView {
        match self {
            Action::Continue => ActionView::Continue,
            Action::Quit => ActionView::Quit,
            Action::Rescan => ActionView::Rescan,
            Action::Delete(p) => ActionView::Delete(p@),
        }
    }
}

/// What a key does while a filter is typed: the filter text follows the keys,
/// Enter keeps it and Esc drops it.
pub open spec fn type_key(v: AppView, key: KeyEvent) -> AppView {
    match key.code {
        KeyCode::Enter => AppView { filtering: false, ..v },
        KeyCode::Esc => AppView { filtering: false, ..v.set_filter(Seq::empty()) },
        KeyCode::Backspace => v.set_filter(
            if v.filter_text.len() == 0 {
                v.filter_text
            } else {
                v.filter_text.drop_last()
            },
        ),
        KeyCode::Char(c) => if c == 'u' && key.control {
            v.set_filter(Seq::empty())
        } else {
            v.set_filter(v.filter_text.push(c))
        },
        _ => v,
    }
}

/// What a key does in the table.
pub open spec fn table_key(v: AppView, key: KeyEvent) -> (AppView, ActionView) {
    match key.code {
        KeyCode::Esc => if v.filter_text.len() == 0 {
            (v, ActionView::Quit)
        } else {
            (v.set_filter(Seq::empty()), ActionView::Continue)
        },
        KeyCode::Down => (v.next(), ActionView::Continue),
        KeyCode::Up => (v.previous(), ActionView::Continue),
        KeyCode::PageDown => (v.page_down(), ActionView::Continue),
        KeyCode::PageUp => (v.page_up(), ActionView::Continue),
        KeyCode::Char(c) => if c == 'q' {
            (v, ActionView::Quit)
        } else if c == '/' {
            (AppView { filtering: true, ..v }, ActionView::Continue)
        } else if c == 'j' {
            (v.next(), ActionView::Continue)
        } else if c == 'k' {
            (v.previous(), ActionView::Continue)
        } else if c == 'g' {
            (v.top(), ActionView::Continue)
        } else if c == 'G' {
            (v.bottom(), ActionView::Continue)
        } else if c == 's' {
            (v.cycle_sort(), ActionView::Continue)
        } else if c == 'd' {
            (
                v.navigate(),
                match v.delete_plan() {
                    Some(p) => ActionView::Delete(p),
                    None => ActionView::Continue,
                },
            )
        } else if c == 'r' {
            (v, ActionView::Rescan)
        } else {
            (v, ActionView::Continue)
        },
        _ => (v, ActionView::Continue),
    }
}

/// What a key does. Control and `c` quits at all times.
pub open spec fn key_effect(v: AppView, key: KeyEvent) -> (AppView, ActionView) {
    if key.code == KeyCode::Char('c') && key.control {
        (v, ActionView::Quit)
    } else if v.filtering {
        (type_key(v, key), ActionView::Continue)
    } else {
        table_key(v, key)
    }
}

/// Whether the row numbers reach as far as a key moves the selection.
pub open spec fn can_follow(v: AppView, key: KeyEvent) -> bool {
    match key.code {
        _ if v.filtering => true,
        KeyCode::Down | KeyCode::Char('j') => v.can_step(),
        KeyCode::PageDown => v.can_page(),
        _ => true,
    }
}

/// Handles a key while a filter is typed.
fn handle_typing(app: &mut App, key: KeyEvent)
    ensures
        final(app)@ == type_key(old(app)@, key),
{
    match key.code {
        KeyCode::Enter => {
            app.filtering = false;
        },
        KeyCode::Esc => {
            clear_filter(app);
            app.filtering = false;
        },
        KeyCode::Backspace => {
            let mut text = app.filter_text.clone();
            text.pop();
            app.set_filter(text);
        },
        KeyCode::Char(c) => {
            if c == 'u' && key.control {
                clear_filter(app);
            } else {
                let mut text = app.filter_text.clone();
                text.push(c);
                app.set_filter(text);
            }
        },
        _ => {},
    }
}

/// Lifts the filter.
fn clear_filter(app: &mut App)
    ensures
        final(app)@ == old(app)@.set_filter(Seq::empty()),
{
    let text = String::new();
    assert(text@ =~= Seq::<char>::empty());
    app.set_filter(text);
}

/// Handles a key press: changes the state and says what the event loop does.
pub fn handle_key(app: &mut App, key: KeyEvent) -> (r: Action)
    requires
        can_follow(old(app)@, key),
    ensures
        (final(app)@, r@) == key_effect(old(app)@, key),
{
    if let KeyCode::Char(c) = key.code {
        if c == 'c' && key.control {
            return Action::Quit;
        }
    }
    if app.filtering {
        handle_typing(app, key);
        return Action::Continue;
    }
    match key.code {
        KeyCode::Esc => {
            if app.filter_text.as_str().is_empty() {
                Action::Quit
            } else {
                clear_filter(app);
                Action::Continue
            }
        },
        KeyCode::Down => {
            app.next();
            Action::Continue
        },
        KeyCode::Up => {
            app.previous();
            Action::Continue
        },
        KeyCode::PageDown => {
            app.page_down();
            Action::Continue
        },
        KeyCode::PageUp => {
            app.page_up();
            Action::Continue
        },
        KeyCode::Char(c) => handle_letter(app, c),
        _ => Action::Continue,
    }
}

/// Handles a letter in the table.
fn handle_letter(app: &mut App, c: char) -> (r: Action)
    requires
        c == 'j' ==> old(app)@.can_step(),
    ensures
        (final(app)@, r@) == table_key(
            old(app)@,
            KeyEvent { code: KeyCode::Char(c), control: false },
        ),
{
    if c == 'q' {
        return Action::Quit;
    }
    if c == 'r' {
        return Action::Rescan;
    }
    if c == 'd' {
        return match app.delete_selected() {
            Some(plan) => Action::Delete(plan),
            None => Action::Continue,
        };
    }
    if c == '/' {
        app.filtering = true;
    } else if c == 'j' {
        app.next();
    } else if c == 'k' {
        app.previous();
    } else if c == 'g' {
        app.top();
    } else if c == 'G' {
        app.bottom();
    } else if c == 's' {
        app.cycle_sort();
    }
    Action::Continue
}

/// Law: control and `c` quits whatever the state, and changes nothing.
pub proof fn law_control_c_quits(v: AppView)
    ensures
        key_effect(v, KeyEvent { code: KeyCode::Char('c'), control: true }) == (
            v,
            ActionView::Quit,
        ),
{
}

/// Law: while a filter is typed no key but control and `c` leaves the program,
/// rescans or deletes.
pub proof fn law_typing_only_types(v: AppView, key: KeyEvent)
    requires
        v.filtering,
        !(key.code == KeyCode::Char('c') && key.control),
    ensures
        key_effect(v, key).1 == ActionView::Continue,
        key_effect(v, key).0.entries == v.entries,
{
}

/// Law: Esc first lifts the filter and quits only without one.
pub proof fn law_esc_clears_then_quits(v: AppView, control: bool)
    requires
        !v.filtering,
    ensures
        v.filter_text.len() > 0 ==> {
            let (w, a) = key_effect(v, KeyEvent { code: KeyCode::Esc, control });
            &&& a == ActionView::Continue
            &&& w.filter_text.len() == 0
            &&& w.filter_regex is None
            &&& key_effect(w, KeyEvent { code: KeyCode::Esc, control }).1 == ActionView::Quit
        },
        v.filter_text.len() == 0 ==> key_effect(
            v,
            KeyEvent { code: KeyCode::Esc, control },
        ).1 == ActionView::Quit,
{
}

/// Law: Backspace takes back the last key that was typed: the filter text is
/// what it was.
pub proof fn law_backspace_takes_back(v: AppView, c: char)
    requires
        v.filtering,
    ensures
        key_effect(
            key_effect(v, KeyEvent { code: KeyCode::Char(c), control: false }).0,
            KeyEvent { code: KeyCode::Backspace, control: false },
        ).0.filter_text == v.filter_text,
{
    assert(v.filter_text.push(c).drop_last() =~= v.filter_text);
}

/// Law: a key keeps the state well formed.
pub proof fn law_keys_keep_well_formed(v: AppView, key: KeyEvent)
    requires
        crate::app_laws::well_formed(v),
    ensures
        crate::app_laws::well_formed(key_effect(v, key).0),
{
    use_filter_law(v, Seq::empty());
    use_filter_law(v, v.filter_text);
    use_filter_law(v, v.filter_text.drop_last());
    if let KeyCode::Char(c) = key.code {
        use_filter_law(v, v.filter_text.push(c));
    }
    crate::app_laws::law_navigation(v);
    crate::app_laws::law_cycle_sort(v);
    let w = key_effect(v, key).0;
    assert(v.navigate().visible() == v.visible());
    assert(AppView { filtering: true, ..v }.visible() == v.visible());
    assert(AppView { filtering: false, ..v }.visible() == v.visible());
    let u = v.set_filter(Seq::empty());
    assert(AppView { filtering: false, ..u }.visible() == u.visible());
}

/// A new filter text keeps the state well formed.
proof fn use_filter_law(v: AppView, text: Seq<char>)
    requires
        crate::app_laws::well_formed(v),
    ensures
        crate::app_laws::well_formed(v.set_filter(text)),
{
    crate::app_laws::law_apply_filter(v, text, crate::filter::compile_outcome(text));
}

/// A key that is pressed alone.
pub open spec fn plain_key(code: KeyCode) -> KeyEvent {
    KeyEvent { code, control: false }
}

/// Law: in the table the arrow keys, and `j` and `k`, move by one row, the page keys
/// by a page, and `g` and `G` to the ends; nothing else comes of them.
pub proof fn law_moving_keys(v: AppView)
    requires
        !v.filtering,
    ensures
        key_effect(v, plain_key(KeyCode::Down)) == (v.next(), ActionView::Continue),
        key_effect(v, plain_key(KeyCode::Char('j'))) == (v.next(), ActionView::Continue),
        key_effect(v, plain_key(KeyCode::Up)) == (v.previous(), ActionView::Continue),
        key_effect(v, plain_key(KeyCode::Char('k'))) == (v.previous(), ActionView::Continue),
        key_effect(v, plain_key(KeyCode::PageDown)) == (v.page_down(), ActionView::Continue),
        key_effect(v, plain_key(KeyCode::PageUp)) == (v.page_up(), ActionView::Continue),
        key_effect(v, plain_key(KeyCode::Char('g'))) == (v.top(), ActionView::Continue),
        key_effect(v, plain_key(KeyCode::Char('G'))) == (v.bottom(), ActionView::Continue),
{
}

/// Law: in the table `q` quits, `r` rescans, `s` sorts by the next key, `/` starts
/// to type a filter, and `d` deletes the selected row if there is one.
pub proof fn law_command_keys(v: AppView)
    requires
        !v.filtering,
    ensures
        key_effect(v, plain_key(KeyCode::Char('q'))) == (v, ActionView::Quit),
        key_effect(v, plain_key(KeyCode::Char('r'))) == (v, ActionView::Rescan),
        key_effect(v, plain_key(KeyCode::Char('s'))) == (v.cycle_sort(), ActionView::Continue),
        key_effect(v, plain_key(KeyCode::Char('/'))) == (
            AppView { filtering: true, ..v },
            ActionView::Continue,
        ),
        key_effect(v, plain_key(KeyCode::Char('d'))).0 == (AppView { navigated: true, ..v }),
        v.delete_plan() matches Some(p) ==> key_effect(v, plain_key(KeyCode::Char('d'))).1
            == ActionView::Delete(p),
        v.delete_plan() is None ==> key_effect(v, plain_key(KeyCode::Char('d'))).1
            == ActionView::Continue,
{
}

/// Law: in the table no other key does anything.
pub proof fn law_other_keys(v: AppView, key: KeyEvent)
    requires
        !v.filtering,
        match key.code {
            KeyCode::Char(c) => c != 'q' && c != 'r' && c != 's' && c != '/' && c != 'd' && c != 'j'
                && c != 'k' && c != 'g' && c != 'G' && !(c == 'c' && key.control),
            KeyCode::Enter | KeyCode::Backspace | KeyCode::Other => true,
            _ => false,
        },
    ensures
        key_effect(v, key) == (v, ActionView::Continue),
{
}

/// Law: while a filter is typed a character is added to its text, Backspace takes the
/// last one away, control and `u` takes all, Enter keeps the text and ends the
/// typing, Esc drops it and ends the typing, and other keys do nothing.
pub proof fn law_typing_keys(v: AppView, c: char)
    requires
        v.filtering,
    ensures
        ({
            let typed = key_effect(v, plain_key(KeyCode::Char(c))).0;
            let back = key_effect(v, plain_key(KeyCode::Backspace)).0;
            let cleared = key_effect(v, KeyEvent { code: KeyCode::Char('u'), control: true }).0;
            let done = key_effect(v, plain_key(KeyCode::Enter)).0;
            let dropped = key_effect(v, plain_key(KeyCode::Esc)).0;
            &&& typed.filter_text == v.filter_text.push(c) && typed.filtering
            &&& v.filter_text.len() > 0 ==> back.filter_text == v.filter_text.drop_last()
            &&& v.filter_text.len() == 0 ==> back.filter_text == v.filter_text
            &&& back.filtering
            &&& cleared.filter_text.len() == 0 && cleared.filter_regex is None
                && cleared.filtering
            &&& done == (AppView { filtering: false, ..v })
            &&& dropped.filter_text.len() == 0 && dropped.filter_regex is None
                && !dropped.filtering
            &&& key_effect(v, plain_key(KeyCode::Down)).0 == v
            &&& key_effect(v, plain_key(KeyCode::PageUp)).0 == v
            &&& key_effect(v, plain_key(KeyCode::Other)).0 == v
        }),
{
}

/// Law: the filter follows its text with every key: it is the pattern that the text
/// compiles to, and stays the last one that compiled while the text does not.
pub proof fn law_typing_filters(v: AppView, c: char)
    requires
        v.filtering,
    ensures
        ({
            let text = v.filter_text.push(c);
            let w = key_effect(v, plain_key(KeyCode::Char(c))).0;
            &&& crate::filter::compiled(text) matches Ok(re) ==> w.filter_regex == Some(re)
                && w.filter_error is None
            &&& crate::filter::compiled(text) is Err ==> w.filter_regex == v.filter_regex
                && w.filter_error is Some
        }),
{
}

} // verus!
