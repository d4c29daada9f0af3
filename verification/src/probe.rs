//! Checking that every name the design depends on is still there.
//!
//! A game update that renames a class or a field breaks the splitter silently:
//! a watcher simply never resolves. So each name is looked up once, and the
//! answer is put in the log.
use vstd::prelude::*;
use vstd::string::StringExecFns;

use crate::metadata::{Class, Module};
use crate::text::{
    capital_digits, decimal_text, hex_text, push_capital_digits, push_decimal, push_hex,
};

verus! {

/// A class we depend on, and the fields we read off it.
pub struct Subject {
    /// Assembly name, as Mono knows it (no `.dll`).
    pub image: &'static str,
    pub class: &'static str,
    pub fields: Vec<&'static str>,
    /// What breaks if this is not found.
    pub used_for: &'static str,
}

/// What a [`Subject`] says.
pub struct Dependence {
    pub image: Seq<char>,
    pub class: Seq<char>,
    pub fields: Seq<Seq<char>>,
    pub used_for: Seq<char>,
}

impl View for Subject {
    type V = Dependence;

    open spec fn view(&self) -> Dependence {
        described(
            self.image@,
            self.class@,
            self.fields@.map_values(|field: &'static str| field@),
            self.used_for@,
        )
    }
}

pub open spec fn described(
    image: Seq<char>,
    class: Seq<char>,
    fields: Seq<Seq<char>>,
    used_for: Seq<char>,
) -> Dependence {
    Dependence { image, class, fields, used_for }
}

/// How many classes the design depends on.
pub const SUBJECTS: usize = 19;

/// Every name the design depends on.
pub open spec fn dependence(index: int) -> Dependence {
    if index == 0 {
        described("Timberborn.TimeSystem"@, "DayNightCycle"@, seq!["DayNumber"@, "_eventBus"@], "day counter, run start"@)
    } else if index == 1 {
        described("Timberborn.SingletonSystem"@, "EventBus"@, seq![], "instance validation"@)
    } else if index == 2 {
        described("Timberborn.ScienceSystem"@, "BuildingUnlockingService"@, seq!["_unlockedBuildings"@, "_eventBus"@], "split: the wonder unlocked with science"@)
    } else if index == 3 {
        described("Timberborn.GameWonderCompletion"@, "WonderCompletionCountdownStarter"@, seq!["CountdownFinished"@, "_unlockDay"@, "_eventBus"@], "run end: the Congratulations screen"@)
    } else if index == 4 {
        described("Timberborn.SingletonSystem"@, "SingletonRepository"@, seq!["_singletonListener"@], "the DI container every service is looked up in"@)
    } else if index == 5 {
        described("Timberborn.SingletonSystem"@, "SingletonListener"@, seq!["_allSingletons"@], "the DI container every service is looked up in"@)
    } else if index == 6 {
        described("Timberborn.GameOver"@, "GameOverChecker"@, seq!["_entityRegistry"@], "split: buildings finished (reaching the entity registry)"@)
    } else if index == 7 {
        described("Timberborn.EntitySystem"@, "EntityRegistry"@, seq!["_entitiesInInstantiationOrder"@], "split: buildings finished"@)
    } else if index == 8 {
        described("Timberborn.BlockSystem"@, "BlockObjectState"@, seq!["_state"@], "split: buildings finished (is it finished yet)"@)
    } else if index == 9 {
        described("Timberborn.BaseComponentSystem"@, "BaseComponent"@, seq!["_componentCache"@], "split: buildings finished"@)
    } else if index == 10 {
        described("Timberborn.BaseComponentSystem"@, "ComponentCache"@, seq!["_components"@, "_name"@], "split: buildings finished"@)
    } else if index == 11 {
        described("Timberborn.Population"@, "PopulationService"@, seq!["GlobalPopulationData"@], "population"@)
    } else if index == 12 {
        described("Timberborn.Population"@, "PopulationData"@, seq!["NumberOfAdults"@, "NumberOfChildren"@], "population"@)
    } else if index == 13 {
        described("Timberborn.SceneLoading"@, "SceneLoader"@, seq!["_isLoading"@, "_assetLoader"@, "_sceneParameters"@], "the scene-load anchor the whole lifecycle hangs on"@)
    } else if index == 14 {
        described("Timberborn.AssetSystem"@, "AssetLoader"@, seq![], "validating the SceneLoader instance"@)
    } else if index == 15 {
        described("Timberborn.GameSceneLoading"@, "GameSceneParameters"@, seq!["<NewGameConfiguration>k__BackingField"@, "<SaveReference>k__BackingField"@], "run start: is the incoming game new or a save"@)
    } else if index == 16 {
        described("Timberborn.MainMenuSceneLoading"@, "MainMenuSceneParameters"@, seq![], "classifying an incoming scene"@)
    } else if index == 17 {
        described("Timberborn.MapEditorSceneLoading"@, "MapEditorSceneParameters"@, seq![], "classifying an incoming scene"@)
    } else if index == 18 {
        described("Timberborn.ErrorReporting"@, "WorldDataService"@, seq!["SourceFileName"@], "run start (fallback)"@)
    } else {
        described(Seq::empty(), Seq::empty(), Seq::empty(), Seq::empty())
    }
}

fn subject(
    image: &'static str,
    class: &'static str,
    fields: Vec<&'static str>,
    used_for: &'static str,
) -> (subject: Subject)
    ensures
        subject.image == image,
        subject.class == class,
        subject.fields == fields,
        subject.used_for == used_for,
{
    Subject { image, class, fields, used_for }
}

/// One of the classes the design depends on.
pub fn subject_at(index: usize) -> (subject: Subject)
    requires
        index < SUBJECTS,
    ensures
        subject@ == dependence(index as int),
{
    let subject = match index {
        0 => {
            subject("Timberborn.TimeSystem", "DayNightCycle", vec!["DayNumber", "_eventBus"], "day counter, run start")
        },
        1 => {
            subject("Timberborn.SingletonSystem", "EventBus", Vec::new(), "instance validation")
        },
        2 => {
            subject("Timberborn.ScienceSystem", "BuildingUnlockingService", vec!["_unlockedBuildings", "_eventBus"], "split: the wonder unlocked with science")
        },
        3 => {
            subject("Timberborn.GameWonderCompletion", "WonderCompletionCountdownStarter", vec!["CountdownFinished", "_unlockDay", "_eventBus"], "run end: the Congratulations screen")
        },
        4 => {
            subject("Timberborn.SingletonSystem", "SingletonRepository", vec!["_singletonListener"], "the DI container every service is looked up in")
        },
        5 => {
            subject("Timberborn.SingletonSystem", "SingletonListener", vec!["_allSingletons"], "the DI container every service is looked up in")
        },
        6 => {
            // Wanted only because it is a singleton holding the entity registry.
            subject("Timberborn.GameOver", "GameOverChecker", vec!["_entityRegistry"], "split: buildings finished (reaching the entity registry)")
        },
        7 => {
            subject("Timberborn.EntitySystem", "EntityRegistry", vec!["_entitiesInInstantiationOrder"], "split: buildings finished")
        },
        8 => {
            subject("Timberborn.BlockSystem", "BlockObjectState", vec!["_state"], "split: buildings finished (is it finished yet)")
        },
        9 => {
            subject("Timberborn.BaseComponentSystem", "BaseComponent", vec!["_componentCache"], "split: buildings finished")
        },
        10 => {
            // _name is the template name; _components is where the entity's
            // BlockObjectState is found.
            subject("Timberborn.BaseComponentSystem", "ComponentCache", vec!["_components", "_name"], "split: buildings finished")
        },
        11 => {
            subject("Timberborn.Population", "PopulationService", vec!["GlobalPopulationData"], "population")
        },
        12 => {
            subject("Timberborn.Population", "PopulationData", vec!["NumberOfAdults", "NumberOfChildren"], "population")
        },
        13 => {
            subject("Timberborn.SceneLoading", "SceneLoader", vec!["_isLoading", "_assetLoader", "_sceneParameters"], "the scene-load anchor the whole lifecycle hangs on")
        },
        14 => {
            subject("Timberborn.AssetSystem", "AssetLoader", Vec::new(), "validating the SceneLoader instance")
        },
        15 => {
            // Which of the two is set says new game versus loaded save.
            subject("Timberborn.GameSceneLoading", "GameSceneParameters", vec!["<NewGameConfiguration>k__BackingField", "<SaveReference>k__BackingField"], "run start: is the incoming game new or a save")
        },
        16 => {
            subject("Timberborn.MainMenuSceneLoading", "MainMenuSceneParameters", Vec::new(), "classifying an incoming scene")
        },
        17 => {
            subject("Timberborn.MapEditorSceneLoading", "MapEditorSceneParameters", Vec::new(), "classifying an incoming scene")
        },
        _ => {
            // A process-wide static, so it can hold a value left over from an earlier
            // load. Only the fallback, for attaching with no load watched.
            subject("Timberborn.ErrorReporting", "WorldDataService", vec!["SourceFileName"], "run start (fallback)")
        },
    };
    assert(subject@.fields =~= dependence(index as int).fields);
    subject
}

/// What the log says of the fields of a class, each followed by a bar.
pub open spec fn fields_text(class: Class, fields: Seq<Seq<char>>) -> Seq<char>
    decreases fields.len(),
{
    if fields.len() == 0 {
        Seq::empty()
    } else {
        fields_text(class, fields.drop_last()) + fields.last() + (match class.offset(
            fields.last(),
        ) {
            Some(offset) => " +0x"@ + capital_digits(offset as nat),
            None => " MISSING"@,
        }) + " | "@
    }
}

/// What the log says of a class that is there. A vtable is populated lazily, so
/// its absence is a statement about this session, not about the game version.
pub open spec fn class_text(class: Class, subject: Dependence) -> Seq<char> {
    "  ok  "@ + subject.image + "/"@ + subject.class + ": "@ + fields_text(
        class,
        subject.fields,
    ) + (match class.vtable {
        Some(vtable) => "vtable "@ + hex_text(vtable as int),
        None => "vtable not yet constructed"@,
    })
}

/// What the log says of a class the design depends on.
pub open spec fn subject_text(module: Module, subject: Dependence) -> Seq<char> {
    if !module.has_image(subject.image) {
        "  MISSING IMAGE  "@ + subject.image + " ("@ + subject.used_for + ")"@
    } else {
        match module.named(subject.image, subject.class) {
            None => "  MISSING CLASS  "@ + subject.image + "/"@ + subject.class + " ("@
                + subject.used_for + ")"@,
            Some(class) => class_text(class, subject),
        }
    }
}

/// Whether a class the design depends on is there.
pub open spec fn is_there(module: Module, subject: Dependence) -> bool {
    module.has_image(subject.image) && module.named(subject.image, subject.class) is Some
}

/// How many of the fields are not there.
pub open spec fn fields_missing(class: Class, fields: Seq<Seq<char>>) -> nat
    decreases fields.len(),
{
    if fields.len() == 0 {
        0
    } else {
        fields_missing(class, fields.drop_last()) + if class.offset(fields.last()) is None {
            1nat
        } else {
            0
        }
    }
}

/// How many of the first `n` classes are not there.
pub open spec fn classes_lost(module: Module, n: int) -> nat
    decreases n,
{
    if n <= 0 {
        0
    } else {
        classes_lost(module, n - 1) + if is_there(module, dependence(n - 1)) {
            0nat
        } else {
            1
        }
    }
}

/// How many fields of the first `n` classes are not there, of classes that are.
pub open spec fn fields_lost(module: Module, n: int) -> nat
    decreases n,
{
    if n <= 0 {
        0
    } else {
        let subject = dependence(n - 1);
        fields_lost(module, n - 1) + if is_there(module, subject) {
            fields_missing(module.named(subject.image, subject.class)->0, subject.fields)
        } else {
            0
        }
    }
}

/// Whether every name the design depends on resolves.
pub open spec fn all_resolved(module: Module) -> bool {
    classes_lost(module, SUBJECTS as int) == 0 && fields_lost(module, SUBJECTS as int) == 0
}

/// What the log says of the first `n` classes.
pub open spec fn subject_lines(module: Module, n: nat) -> Seq<Seq<char>> {
    Seq::new(n, |i: int| subject_text(module, dependence(i)))
}

/// The whole of what the log says.
pub open spec fn report_lines(module: Module) -> Seq<Seq<char>> {
    seq!["--- probe: "@ + module.runtime@ + " ---"@] + subject_lines(
        module,
        SUBJECTS as nat,
    ) + seq![
        "--- probe: "@ + (if all_resolved(module) {
            "ALL RESOLVED"@
        } else {
            "MISMATCH"@
        }) + " ("@ + decimal_text(classes_lost(module, SUBJECTS as int) as int)
            + " classes unresolved, "@ + decimal_text(fields_lost(module, SUBJECTS as int) as int)
            + " fields unresolved) ---"@,
    ]
}

/// What resolving every subject came to.
pub struct Report {
    pub lines: Vec<String>,
    /// Whether everything resolved.
    pub resolved: bool,
}

/// The texts of `lines`.
pub open spec fn texts(lines: Seq<String>) -> Seq<Seq<char>> {
    lines.map_values(|line: String| line@)
}

/// Says what became of one class. Returns how many of its fields are missing, or
/// `None` if the class itself is.
fn probe(module: &Module, subject: &Subject) -> (result: (String, Option<u64>))
    requires
        subject@.fields.len() <= 0xff,
    ensures
        result.0@ == subject_text(*module, subject@),
        result.1 is Some <==> is_there(*module, subject@),
        result.1 matches Some(n) ==> n == fields_missing(
            module.named(subject@.image, subject@.class)->0,
            subject@.fields,
        ) && n <= 0xff,
{
    let mut line = String::new();
    if !module.contains_image(subject.image) {
        line.append("  MISSING IMAGE  ");
        line.append(subject.image);
        line.append(" (");
        line.append(subject.used_for);
        line.append(")");
        assert(line@ =~= subject_text(*module, subject@));
        return (line, None);
    }
    let class: &Class = match module.get_class(subject.image, subject.class) {
        Some(class) => class,
        None => {
            line.append("  MISSING CLASS  ");
            line.append(subject.image);
            line.append("/");
            line.append(subject.class);
            line.append(" (");
            line.append(subject.used_for);
            line.append(")");
            assert(line@ =~= subject_text(*module, subject@));
            return (line, None);
        },
    };
    line.append("  ok  ");
    line.append(subject.image);
    line.append("/");
    line.append(subject.class);
    line.append(": ");
    let ghost begun = line@;
    let mut missing: u64 = 0;
    let mut i: usize = 0;
    let ghost fields = subject@.fields;
    assert(fields.take(0) =~= Seq::<Seq<char>>::empty());
    assert(line@ =~= begun + fields_text(*class, fields.take(0)));
    while i < subject.fields.len()
        invariant
            i <= fields.len(),
            fields == subject@.fields,
            fields.len() == subject.fields@.len(),
            fields.len() <= 0xff,
            missing <= i,
            missing == fields_missing(*class, fields.take(i as int)),
            line@ == begun + fields_text(*class, fields.take(i as int)),
        decreases fields.len() - i,
    {
        let field: &'static str = subject.fields[i];
        let ghost before = line@;
        proof {
            assert(fields.take(i + 1).drop_last() =~= fields.take(i as int));
            assert(fields.take(i + 1).last() == field@);
        }
        line.append(field);
        match class.get_field_offset(field) {
            Some(offset) => {
                line.append(" +0x");
                push_capital_digits(&mut line, offset as u64);
            },
            None => {
                missing = missing + 1;
                line.append(" MISSING");
            },
        }
        line.append(" | ");
        assert(line@ =~= begun + fields_text(*class, fields.take(i + 1)));
        i = i + 1;
    }
    assert(fields.take(i as int) =~= fields);
    match class.vtable {
        Some(vtable) => {
            line.append("vtable ");
            push_hex(&mut line, vtable);
        },
        None => {
            line.append("vtable not yet constructed");
        },
    }
    assert(line@ =~= class_text(*class, subject@));
    (line, Some(missing))
}

/// Resolves every subject and reports the result.
///
/// Best run once a save is loaded, since Mono loads assemblies lazily and some
/// will not be present in the main menu.
pub fn run(module: &Module) -> (report: Report)
    ensures
        texts(report.lines@) == report_lines(*module),
        report.resolved == all_resolved(*module),
{
    let mut lines: Vec<String> = Vec::new();
    let mut first = String::new();
    first.append("--- probe: ");
    first.append(module.runtime.as_str());
    first.append(" ---");
    let ghost head = first@;
    lines.push(first);
    let mut missing_classes: u64 = 0;
    let mut missing_fields: u64 = 0;
    let mut i: usize = 0;
    assert(texts(lines@) =~= seq![head] + subject_lines(*module, 0));
    while i < SUBJECTS
        invariant
            i <= SUBJECTS,
            missing_classes == classes_lost(*module, i as int),
            missing_classes <= i,
            missing_fields == fields_lost(*module, i as int),
            missing_fields <= 0xff * i,
            texts(lines@) == seq![head] + subject_lines(*module, i as nat),
        decreases SUBJECTS - i,
    {
        let subject = subject_at(i);
        let (line, missing) = probe(module, &subject);
        match missing {
            Some(n) => {
                missing_fields = missing_fields + n;
            },
            None => {
                missing_classes = missing_classes + 1;
            },
        }
        let ghost before = lines@;
        let ghost said = line@;
        lines.push(line);
        assert(texts(lines@) =~= texts(before).push(said));
        assert(subject_lines(*module, (i + 1) as nat) =~= subject_lines(*module, i as nat).push(
            said,
        ));
        assert(seq![head] + subject_lines(*module, i as nat).push(said) =~= (seq![head]
            + subject_lines(*module, i as nat)).push(said));
        i = i + 1;
    }
    let resolved = missing_classes == 0 && missing_fields == 0;
    let mut last = String::new();
    last.append("--- probe: ");
    last.append(
        if resolved {
            "ALL RESOLVED"
        } else {
            "MISMATCH"
        },
    );
    last.append(" (");
    push_decimal(&mut last, missing_classes);
    last.append(" classes unresolved, ");
    push_decimal(&mut last, missing_fields);
    last.append(" fields unresolved) ---");
    let ghost tail = last@;
    lines.push(last);
    assert(head =~= "--- probe: "@ + module.runtime@ + " ---"@);
    assert(tail =~= report_lines(*module).last());
    assert(texts(lines@) =~= report_lines(*module));
    Report { lines, resolved }
}

} // verus!
