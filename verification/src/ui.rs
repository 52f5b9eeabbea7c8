use vstd::prelude::*;

verus! {

/// What the buttons of the menu ask for
#[derive(Debug, Clone, Copy, PartialEq, Eq, Structural)]
pub enum Message {
    ExitMenu,
    ExitGame,
}

/// Key code of the escape key
pub const ESCAPE_KEY: u32 = 1;

/// Number of presses of the escape key among key state changes (key code, pressed)
pub open spec fn escape_presses(changes: Seq<(u32, bool)>) -> nat
    decreases changes.len(),
{
    if changes.len() == 0 {
        0
    } else {
        escape_presses(changes.drop_last()) + if changes.last().0 == ESCAPE_KEY && changes.last().1 {
            1nat
        } else {
            0nat
        }
    }
}

/// The state of the menu of the game: the messages its buttons sent and that are
/// not applied yet, whether it is shown and whether the game should exit. The
/// layout and the drawing of the widgets are left to the renderer.
pub struct Ui {
    messages: Vec<Message>,
    show_menu: bool,
    should_exit: bool,
}

impl Ui {
    /// The messages not applied yet, oldest first
    pub closed spec fn pending(&self) -> Seq<Message> {
        self.messages@
    }

    /// Whether the menu is shown
    pub closed spec fn menu_shown(&self) -> bool {
        self.show_menu
    }

    /// Whether the game was asked to exit
    pub closed spec fn exit_asked(&self) -> bool {
        self.should_exit
    }

    pub fn new() -> (u: Ui)
        ensures
            u.pending() == Seq::<Message>::empty(),
            !u.menu_shown(),
            !u.exit_asked(),
    {
        Ui { messages: Vec::new(), show_menu: false, should_exit: false }
    }

    /// The camera follows the mouse while the menu is hidden
    pub fn should_update_camera(&self) -> (b: bool)
        ensures
            b == !self.menu_shown(),
    {
        !self.show_menu
    }

    /// Receive the messages the buttons of the menu sent
    pub fn handle_messages(&mut self, messages: Vec<Message>)
        ensures
            final(self).pending() == old(self).pending() + messages@,
            final(self).menu_shown() == old(self).menu_shown(),
            final(self).exit_asked() == old(self).exit_asked(),
    {
        let mut i: usize = 0;
        let ghost start = self.messages@;
        while i < messages.len()
            invariant
                i <= messages.len(),
                self.messages@ == start + messages@.subrange(0, i as int),
                self.show_menu == old(self).show_menu,
                self.should_exit == old(self).should_exit,
                start == old(self).messages@,
            decreases messages.len() - i,
        {
            self.messages.push(messages[i]);
            proof {
                assert(messages@.subrange(0, i + 1) =~= messages@.subrange(0, i as int).push(messages@[i as int]));
            }
            i = i + 1;
        }
        proof {
            assert(messages@.subrange(0, messages@.len() as int) =~= messages@);
        }
    }

    /// Key state changes (key code, pressed): each press of escape shows or hides the menu
    pub fn handle_key_state_changes(&mut self, changes: Vec<(u32, bool)>)
        ensures
            final(self).menu_shown() == (old(self).menu_shown() != (escape_presses(changes@) % 2 == 1)),
            final(self).pending() == old(self).pending(),
            final(self).exit_asked() == old(self).exit_asked(),
    {
        let mut i: usize = 0;
        while i < changes.len()
            invariant
                i <= changes.len(),
                self.show_menu == (old(self).show_menu != (escape_presses(changes@.subrange(0, i as int)) % 2 == 1)),
                self.messages@ == old(self).messages@,
                self.should_exit == old(self).should_exit,
            decreases changes.len() - i,
        {
            let (key, pressed) = changes[i];
            proof {
                assert(changes@.subrange(0, i + 1).drop_last() =~= changes@.subrange(0, i as int));
            }
            if key == ESCAPE_KEY {
                if pressed {
                    self.show_menu = !self.show_menu;
                }
            }
            i = i + 1;
        }
        proof {
            assert(changes@.subrange(0, changes@.len() as int) =~= changes@);
        }
    }

    /// Apply the pending messages: leaving the menu hides it, leaving the game
    /// asks to exit
    fn update(&mut self)
        ensures
            final(self).pending() == Seq::<Message>::empty(),
            final(self).menu_shown() == (old(self).menu_shown() && !old(self).pending().contains(Message::ExitMenu)),
            final(self).exit_asked() == (old(self).exit_asked() || old(self).pending().contains(Message::ExitGame)),
    {
        let mut i: usize = 0;
        while i < self.messages.len()
            invariant
                i <= self.messages.len(),
                self.messages@ == old(self).messages@,
                self.show_menu == (old(self).show_menu && !self.messages@.subrange(0, i as int).contains(Message::ExitMenu)),
                self.should_exit == (old(self).should_exit || self.messages@.subrange(0, i as int).contains(Message::ExitGame)),
            decreases self.messages.len() - i,
        {
            let ghost before = self.messages@.subrange(0, i as int);
            let ghost after = self.messages@.subrange(0, i + 1);
            proof {
                assert(after =~= before.push(self.messages@[i as int]));
                assert forall|m: Message| after.contains(m) <==> (before.contains(m) || m == self.messages@[i as int]) by {
                    if after.contains(m) {
                        let k = choose|k: int| 0 <= k < after.len() && after[k] == m;
                        if k < i {
                            assert(before[k] == m);
                        }
                    }
                    if before.contains(m) {
                        let k = choose|k: int| 0 <= k < before.len() && before[k] == m;
                        assert(after[k] == m);
                    }
                    if m == self.messages@[i as int] {
                        assert(after[i as int] == m);
                    }
                }
            }
            match self.messages[i] {
                Message::ExitMenu => self.show_menu = false,
                Message::ExitGame => self.should_exit = true,
            }
            i = i + 1;
        }
        proof {
            assert(self.messages@.subrange(0, self.messages@.len() as int) =~= self.messages@);
        }
        self.messages = Vec::new();
    }

    /// Apply the pending messages before the widgets are laid out again; returns
    /// whether the menu is drawn
    pub fn rebuild(&mut self) -> (shown: bool)
        ensures
            final(self).pending() == Seq::<Message>::empty(),
            final(self).menu_shown() == (old(self).menu_shown() && !old(self).pending().contains(Message::ExitMenu)),
            final(self).exit_asked() == (old(self).exit_asked() || old(self).pending().contains(Message::ExitGame)),
            shown == final(self).menu_shown(),
    {
        self.update();
        self.show_menu
    }

    /// The mouse is captured while the menu is hidden
    pub fn should_capture_mouse(&self) -> (b: bool)
        ensures
            b == !self.menu_shown(),
    {
        !self.show_menu
    }

    pub fn should_exit(&self) -> (b: bool)
        ensures
            b == self.exit_asked(),
    {
        self.should_exit
    }
}

} // verus!
