use vstd::prelude::*;

verus! {

/// The permission rule that lets the agent run the tool without asking.
pub const ALLOW_ENTRY: &'static str = "Bash(stacks:*)";

/// The command that the session-start hook runs.
pub const HOOK_COMMAND: &'static str = "stacks prime";

/// What the installer reads of one entry of the session-start hook list: the
/// `command` of each hook in the entry's `hooks` array (`None` for a hook whose
/// command is not a string), or `None` when the entry has no `hooks` array.
pub struct HookEntryView {
    pub commands: Option<Vec<Option<String>>>,
}

/// What the installer reads of the agent settings. `None` stands for a list that is
/// missing or has the wrong type (its parent too); the installer replaces it with an
/// empty one.
pub struct SettingsView {
    /// The `permissions.allow` list: the text of each item that is a string.
    pub allow: Option<Vec<Option<String>>>,
    /// The `hooks.SessionStart` list.
    pub session_start: Option<Vec<HookEntryView>>,
}

/// The abstract settings: the allow list and, for each session-start entry, its list of
/// hook commands.
pub struct SettingsModel {
    pub allow: Option<Seq<Option<Seq<char>>>>,
    pub session_start: Option<Seq<Option<Seq<Option<Seq<char>>>>>>,
}

/// What an install adds to the settings.
pub struct InstallPlan {
    /// Append the permission rule to the allow list.
    pub add_allow: bool,
    /// Append a session-start entry that runs the hook command.
    pub add_hook: bool,
}

/// A list of optional strings as character sequences.
pub open spec fn texts_view(v: Seq<Option<String>>) -> Seq<Option<Seq<char>>> {
    v.map_values(|o: Option<String>| match o {
        Some(s) => Some(s@),
        None => None,
    })
}

/// An optional list of optional strings as character sequences.
pub open spec fn opt_texts_view(v: Option<Vec<Option<String>>>) -> Option<Seq<Option<Seq<char>>>> {
    match v {
        Some(items) => Some(texts_view(items@)),
        None => None,
    }
}

impl View for HookEntryView {
    type V = Option<Seq<Option<Seq<char>>>>;

    open spec fn view(&self) -> Self::V {
        opt_texts_view(self.commands)
    }
}

impl View for SettingsView {
    type V = SettingsModel;

    open spec fn view(&self) -> SettingsModel {
        SettingsModel {
            allow: opt_texts_view(self.allow),
            session_start: match self.session_start {
                Some(entries) => Some(entries@.map_values(|e: HookEntryView| e@)),
                None => None,
            },
        }
    }
}

/// Whether a list holds the given text.
pub open spec fn holds_text(list: Option<Seq<Option<Seq<char>>>>, text: Seq<char>) -> bool {
    list matches Some(items) && items.contains(Some(text))
}

/// Whether some entry of a session-start list runs the hook command.
pub open spec fn runs_hook(entries: Seq<Option<Seq<Option<Seq<char>>>>>) -> bool {
    exists|i: int| 0 <= i < entries.len() && holds_text(#[trigger] entries[i], HOOK_COMMAND@)
}

/// Whether the session-start list exists and some entry already runs the hook command.
pub open spec fn hook_installed(entries: Option<Seq<Option<Seq<Option<Seq<char>>>>>>) -> bool {
    entries matches Some(es) && runs_hook(es)
}

/// An install adds the permission rule unless the allow list has it, and the hook unless
/// some session-start entry runs it.
pub open spec fn plan_install_spec(m: SettingsModel) -> InstallPlan {
    InstallPlan {
        add_allow: !holds_text(m.allow, ALLOW_ENTRY@),
        add_hook: !hook_installed(m.session_start),
    }
}

/// A list, or the empty list in place of a missing one.
pub open spec fn or_empty<T>(list: Option<Seq<T>>) -> Seq<T> {
    match list {
        Some(items) => items,
        None => Seq::empty(),
    }
}

/// The session-start entry that the installer adds: one hook that runs the hook command.
pub open spec fn hook_entry() -> Option<Seq<Option<Seq<char>>>> {
    Some(seq![Some(HOOK_COMMAND@)])
}

/// The settings after an install has carried out `plan`: missing or mistyped lists are
/// replaced by empty ones, and the planned items are appended.
pub open spec fn after_install(m: SettingsModel, plan: InstallPlan) -> SettingsModel {
    SettingsModel {
        allow: Some(
            or_empty(m.allow) + if plan.add_allow {
                seq![Some(ALLOW_ENTRY@)]
            } else {
                Seq::empty()
            },
        ),
        session_start: Some(
            or_empty(m.session_start) + if plan.add_hook {
                seq![hook_entry()]
            } else {
                Seq::empty()
            },
        ),
    }
}

/// Whether `list` holds `text`.
fn list_holds(list: &Vec<Option<String>>, text: &String) -> (found: bool)
    ensures
        found == texts_view(list@).contains(Some(text@)),
{
    let ghost v = texts_view(list@);
    let mut i: usize = 0;
    while i < list.len()
        invariant
            i <= list@.len(),
            v == texts_view(list@),
            forall|j: int| 0 <= j < i ==> v[j] != Some(text@),
        decreases list@.len() - i,
    {
        match &list[i] {
            Some(item) => {
                if *item == *text {
                    assert(v[i as int] == Some(text@));
                    return true;
                }
            },
            None => {},
        }
        i = i + 1;
    }
    proof {
        if v.contains(Some(text@)) {
            let k = choose|k: int| 0 <= k < v.len() && v[k] == Some(text@);
            assert(v[k] != Some(text@));
        }
    }
    false
}

/// Whether an optional list holds `text`.
fn opt_list_holds(list: &Option<Vec<Option<String>>>, text: &String) -> (found: bool)
    ensures
        found == holds_text(opt_texts_view(*list), text@),
{
    match list {
        Some(items) => list_holds(items, text),
        None => false,
    }
}

/// Decides what an install must add so that the agent may run the tool and runs the
/// primer at session start; an install that finds both in place adds nothing.
pub fn plan_install(settings: &SettingsView) -> (plan: InstallPlan)
    ensures
        plan == plan_install_spec(settings@),
{
    let allow_entry: String = ALLOW_ENTRY.to_owned();
    let hook_command: String = HOOK_COMMAND.to_owned();
    let add_allow = !opt_list_holds(&settings.allow, &allow_entry);
    let mut installed = false;
    match &settings.session_start {
        Some(entries) => {
            let ghost es = entries@.map_values(|e: HookEntryView| e@);
            let mut i: usize = 0;
            while i < entries.len() && !installed
                invariant
                    i <= entries@.len(),
                    es == entries@.map_values(|e: HookEntryView| e@),
                    es.len() == entries@.len(),
                    hook_command@ == HOOK_COMMAND@,
                    installed ==> runs_hook(es),
                    !installed ==> forall|j: int|
                        0 <= j < i ==> !holds_text(#[trigger] es[j], HOOK_COMMAND@),
                decreases entries@.len() - i + if installed { 0int } else { 1int },
            {
                if opt_list_holds(&entries[i].commands, &hook_command) {
                    assert(holds_text(es[i as int], HOOK_COMMAND@));
                    assert(runs_hook(es));
                    installed = true;
                } else {
                    i = i + 1;
                }
            }
            proof {
                if !installed && runs_hook(es) {
                    let k = choose|k: int|
                        0 <= k < es.len() && holds_text(#[trigger] es[k], HOOK_COMMAND@);
                    assert(!holds_text(es[k], HOOK_COMMAND@));
                }
            }
        },
        None => {},
    }
    InstallPlan { add_allow, add_hook: !installed }
}

/// The plan adds the hook exactly when no session-start entry, at any position, has a hook
/// whose command is the hook command; and it adds the permission rule exactly when no item
/// of the allow list is that rule.
pub proof fn lemma_plan_install_adds_only_missing(m: SettingsModel)
    ensures
        plan_install_spec(m).add_hook <==> !(m.session_start matches Some(es) && exists|i: int, j: int|
            0 <= i < es.len() && es[i] is Some && 0 <= j < es[i]->0.len() && #[trigger] es[i]->0[j]
                == Some(HOOK_COMMAND@)),
        plan_install_spec(m).add_allow <==> !(m.allow matches Some(items) && exists|j: int|
            0 <= j < items.len() && #[trigger] items[j] == Some(ALLOW_ENTRY@)),
{
    if let Some(es) = m.session_start {
        if runs_hook(es) {
            let i = choose|i: int| 0 <= i < es.len() && holds_text(#[trigger] es[i], HOOK_COMMAND@);
            let cmds = es[i]->0;
            let j = choose|j: int| 0 <= j < cmds.len() && cmds[j] == Some(HOOK_COMMAND@);
            assert(es[i] is Some && 0 <= j < es[i]->0.len() && es[i]->0[j] == Some(HOOK_COMMAND@));
        }
        if exists|i: int, j: int|
            0 <= i < es.len() && es[i] is Some && 0 <= j < es[i]->0.len() && #[trigger] es[i]->0[j]
                == Some(HOOK_COMMAND@) {
            let (i, j) = choose|i: int, j: int|
                0 <= i < es.len() && es[i] is Some && 0 <= j < es[i]->0.len() && #[trigger] es[i]->0[j]
                    == Some(HOOK_COMMAND@);
            let cmds = es[i]->0;
            assert(cmds[j] == Some(HOOK_COMMAND@));
            assert(cmds.contains(Some(HOOK_COMMAND@)));
            assert(holds_text(es[i], HOOK_COMMAND@));
        }
    }
}

/// Installing is idempotent: after one install, a second install plans nothing and
/// leaves the settings as the first one left them; and an install keeps every item that
/// was already in the two lists, in front of what it appends.
pub proof fn lemma_install_idempotent(m: SettingsModel)
    ensures
        ({
            let once = after_install(m, plan_install_spec(m));
            &&& plan_install_spec(once) == (InstallPlan { add_allow: false, add_hook: false })
            &&& after_install(once, plan_install_spec(once)) == once
            &&& once.allow->0.subrange(0, or_empty(m.allow).len() as int) == or_empty(m.allow)
            &&& once.session_start->0.subrange(0, or_empty(m.session_start).len() as int)
                == or_empty(m.session_start)
        }),
{
    let plan = plan_install_spec(m);
    let once = after_install(m, plan);
    let allow = once.allow->0;
    let entries = once.session_start->0;
    let old_allow = or_empty(m.allow);
    let old_entries = or_empty(m.session_start);
    if plan.add_allow {
        assert(allow[old_allow.len() as int] == Some(ALLOW_ENTRY@));
    } else {
        assert(allow =~= old_allow);
    }
    assert(allow.contains(Some(ALLOW_ENTRY@)));
    if plan.add_hook {
        let k = old_entries.len() as int;
        assert(entries[k] == hook_entry());
        assert(seq![Some(HOOK_COMMAND@)][0] == Some(HOOK_COMMAND@));
        assert(holds_text(entries[k], HOOK_COMMAND@));
    } else {
        assert(entries =~= old_entries);
    }
    assert(runs_hook(entries));
    let twice = after_install(once, plan_install_spec(once));
    assert(twice.allow->0 =~= allow);
    assert(twice.session_start->0 =~= entries);
    assert(allow.subrange(0, old_allow.len() as int) =~= old_allow);
    assert(entries.subrange(0, old_entries.len() as int) =~= old_entries);
}

} // verus!
