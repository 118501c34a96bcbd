//! The option table, option values, and the parsing and printing of
//! command line options.
use vstd::prelude::*;
use vstd::string::StrSliceExecFns;
use vstd::utf8::encode_utf8;
use crate::format::{count_text, value_text, format_count_str, format_value_str};
use crate::text::{push_char, push_str, chars_order, chars_less_at, prefix_eq, lemma_chars_less_at, lemma_chars_order_zero,
    lemma_chars_order_antisym, lemma_chars_order_trans, compare_str, str_eq};

verus! {

pub const TARGET_SAT: i32 = 2;
pub const TARGET_DEFAULT: i32 = 1;
pub const STABLE_DEFAULT: i32 = 1;
pub const STABLE_UNSAT: i32 = 0;
pub const RESTARTINT_DEFAULT: i32 = 1;
pub const RESTARTINT_SAT: i32 = 50;

/// Option names (with their terminating zero) fit this many bytes.
pub const OPTIONS_MAX_NAME_BUFFER_SIZE: usize = 32;

/// The number of options.
pub const NUM_OPTIONS: usize = 158;

/// An option: its name, default value, range and description.
#[derive(Clone, Copy)]
pub struct OptionEntry {
    pub name: &'static str,
    pub value: i32,
    pub low: i32,
    pub high: i32,
    pub description: &'static str,
}

/// The table of options, sorted by name: name, default, lowest and
/// highest value, description.
pub open spec fn option_spec(i: int) -> (Seq<char>, i32, i32, i32, Seq<char>) {
    if i == 0 {
        ("ands"@, 1, 0, 1, "extract and eliminate and gates"@)
    } else if i == 1 {
        ("backbone"@, 1, 0, 2, "binary clause backbone (2=eager)"@)
    } else if i == 2 {
        ("backboneeffort"@, 20, 0, 100_000, "effort in per mille"@)
    } else if i == 3 {
        ("backbonemaxrounds"@, 1000, 1, i32::MAX, "maximum backbone rounds"@)
    } else if i == 4 {
        ("backbonerounds"@, 100, 1, i32::MAX, "backbone rounds limit"@)
    } else if i == 5 {
        ("bigbigfraction"@, 990, 0, 1000, "big binary clause fraction per mille"@)
    } else if i == 6 {
        ("bump"@, 1, 0, 1, "enable variable bumping"@)
    } else if i == 7 {
        ("bumpreasons"@, 1, 0, 1, "bump reason side literals too"@)
    } else if i == 8 {
        ("bumpreasonslimit"@, 10, 1, i32::MAX, "relative reason literals limit"@)
    } else if i == 9 {
        ("bumpreasonsrate"@, 10, 1, i32::MAX, "decision rate limit"@)
    } else if i == 10 {
        ("chrono"@, 1, 0, 1, "allow chronological backtracking"@)
    } else if i == 11 {
        ("chronolevels"@, 100, 0, i32::MAX, "maximum jumped over levels"@)
    } else if i == 12 {
        ("compact"@, 1, 0, 1, "enable compacting garbage collection"@)
    } else if i == 13 {
        ("compactlim"@, 10, 0, 100, "compact inactive limit (in percent)"@)
    } else if i == 14 {
        ("congruence"@, 1, 0, 1, "congruence closure on extracted gates"@)
    } else if i == 15 {
        ("congruenceandarity"@, 1_000_000, 2, 50_000_000, "AND gate arity limit"@)
    } else if i == 16 {
        ("congruenceands"@, 1, 0, 1, "extract AND gates for congruence closure"@)
    } else if i == 17 {
        ("congruencebinaries"@, 1, 0, 1, "extract certain binary clauses"@)
    } else if i == 18 {
        ("congruenceites"@, 1, 0, 1, "extract ITE gates for congruence closure"@)
    } else if i == 19 {
        ("congruenceonce"@, 0, 0, 1, "congruence closure only initially"@)
    } else if i == 20 {
        ("congruencexorarity"@, 4, 2, 20, "congruence XOR gate arity limit"@)
    } else if i == 21 {
        ("congruencexorcounts"@, 2, 1, i32::MAX, "XOR counting rounds"@)
    } else if i == 22 {
        ("congruencexors"@, 1, 0, 1, "extract XOR gates for congruence closure"@)
    } else if i == 23 {
        ("decay"@, 50, 1, 200, "per mille scores decay"@)
    } else if i == 24 {
        ("definitioncores"@, 2, 1, 100, "how many cores"@)
    } else if i == 25 {
        ("definitions"@, 1, 0, 1, "extract general definitions"@)
    } else if i == 26 {
        ("definitionticks"@, 1_000_000, 0, i32::MAX, "kitten ticks limits"@)
    } else if i == 27 {
        ("defraglim"@, 75, 50, 100, "usable defragmentation limit in percent"@)
    } else if i == 28 {
        ("defragsize"@, 262_144, 10, i32::MAX, "size defragmentation limit"@)
    } else if i == 29 {
        ("eagersubsume"@, 4, 0, 4, "eagerly subsume previous learned clauses"@)
    } else if i == 30 {
        ("eliminate"@, 1, 0, 1, "bounded variable elimination BVE"@)
    } else if i == 31 {
        ("eliminatebound"@, 16, 0, 8192, "maximum elimination bound"@)
    } else if i == 32 {
        ("eliminateclslim"@, 100, 1, i32::MAX, "elimination clause size limit"@)
    } else if i == 33 {
        ("eliminateeffort"@, 100, 0, 2000, "effort in per mille"@)
    } else if i == 34 {
        ("eliminateinit"@, 500, 0, i32::MAX, "initial elimination interval"@)
    } else if i == 35 {
        ("eliminateint"@, 500, 10, i32::MAX, "base elimination interval"@)
    } else if i == 36 {
        ("eliminateocclim"@, 2000, 0, i32::MAX, "elimination occurrence limit"@)
    } else if i == 37 {
        ("eliminaterounds"@, 2, 1, 10_000, "elimination rounds limit"@)
    } else if i == 38 {
        ("emafast"@, 33, 10, 1_000_000, "fast exponential moving average window"@)
    } else if i == 39 {
        ("emaslow"@, 100_000, 100, 1_000_000, "slow exponential moving average window"@)
    } else if i == 40 {
        ("equivalences"@, 1, 0, 1, "extract and eliminate equivalence gates"@)
    } else if i == 41 {
        ("extract"@, 1, 0, 1, "extract gates in variable elimination"@)
    } else if i == 42 {
        ("factor"@, 1, 0, 1, "bounded variable addition"@)
    } else if i == 43 {
        ("factorcandrounds"@, 2, 0, i32::MAX, "candidates reduction rounds"@)
    } else if i == 44 {
        ("factordelay"@, 4, 0, 12, "delaying factor"@)
    } else if i == 45 {
        ("factoreffort"@, 50, 0, 1_000_000, "bounded variable effort in per mille"@)
    } else if i == 46 {
        ("factorhops"@, 3, 1, 10, "structural factoring heuristic hops"@)
    } else if i == 47 {
        ("factoriniticks"@, 700, 1, 1_000_000, "initial ticks ticks in millions"@)
    } else if i == 48 {
        ("factorsize"@, 5, 2, i32::MAX, "bounded variable addition clause size"@)
    } else if i == 49 {
        ("factorstructural"@, 0, 0, 1, "structural bounded variable addition"@)
    } else if i == 50 {
        ("fastel"@, 0, 0, 1, "initial fast variable elimination"@)
    } else if i == 51 {
        ("fastelclslim"@, 100, 1, i32::MAX, "fast elimination clause length limit"@)
    } else if i == 52 {
        ("fastelim"@, 8, 1, 1000, "fast elimination resolvents limit"@)
    } else if i == 53 {
        ("fasteloccs"@, 100, 1, 1000, "fast elimination occurrence limit"@)
    } else if i == 54 {
        ("fastelrounds"@, 4, 1, 1000, "fast elimination rounds"@)
    } else if i == 55 {
        ("fastelsub"@, 1, 0, 1, "forward subsuming fast variable elimination"@)
    } else if i == 56 {
        ("flushproof"@, 0, 0, 1, "flush proof lines immediately"@)
    } else if i == 57 {
        ("focusedtiers"@, 1, 0, 1, "always used focused mode tiers"@)
    } else if i == 58 {
        ("forcephase"@, 0, 0, 1, "force initial phase"@)
    } else if i == 59 {
        ("forward"@, 1, 0, 1, "forward subsumption in BVE"@)
    } else if i == 60 {
        ("forwardeffort"@, 100, 0, 1_000_000, "effort in per mille"@)
    } else if i == 61 {
        ("ifthenelse"@, 1, 0, 1, "extract and eliminate if-then-else gates"@)
    } else if i == 62 {
        ("incremental"@, 0, 0, 1, "enable incremental solving"@)
    } else if i == 63 {
        ("jumpreasons"@, 1, 0, 1, "jump binary reasons"@)
    } else if i == 64 {
        ("lucky"@, 1, 0, 1, "try some lucky assignments"@)
    } else if i == 65 {
        ("luckyearly"@, 1, 0, 1, "lucky assignments before preprocessing"@)
    } else if i == 66 {
        ("luckylate"@, 1, 0, 1, "lucky assignments after preprocessing"@)
    } else if i == 67 {
        ("mineffort"@, 10, 0, i32::MAX, "minimum absolute effort in millions"@)
    } else if i == 68 {
        ("minimize"@, 1, 0, 1, "learned clause minimization"@)
    } else if i == 69 {
        ("minimizedepth"@, 1000, 1, 1_000_000, "minimization depth"@)
    } else if i == 70 {
        ("minimizeticks"@, 1, 0, 1, "count ticks in minimize and shrink"@)
    } else if i == 71 {
        ("modeinit"@, 1000, 10, 100_000_000, "initial focused conflicts limit"@)
    } else if i == 72 {
        ("modeint"@, 1000, 10, 100_000_000, "focused conflicts interval"@)
    } else if i == 73 {
        ("otfs"@, 1, 0, 1, "on-the-fly strengthening"@)
    } else if i == 74 {
        ("phase"@, 1, 0, 1, "initial decision phase"@)
    } else if i == 75 {
        ("phasesaving"@, 1, 0, 1, "enable phase saving"@)
    } else if i == 76 {
        ("preprocess"@, 1, 0, 1, "initial preprocessing"@)
    } else if i == 77 {
        ("preprocessbackbone"@, 1, 0, 1, "backbone preprocessing"@)
    } else if i == 78 {
        ("preprocesscongruence"@, 1, 0, 1, "congruence preprocessing"@)
    } else if i == 79 {
        ("preprocessfactor"@, 1, 0, 1, "variable addition preprocessing"@)
    } else if i == 80 {
        ("preprocessprobe"@, 1, 0, 1, "probing preprocessing"@)
    } else if i == 81 {
        ("preprocessrounds"@, 1, 1, i32::MAX, "initial preprocessing rounds"@)
    } else if i == 82 {
        ("preprocessweep"@, 1, 0, 1, "sweep preprocessing"@)
    } else if i == 83 {
        ("probe"@, 1, 0, 1, "enable probing"@)
    } else if i == 84 {
        ("probeinit"@, 100, 0, i32::MAX, "initial probing interval"@)
    } else if i == 85 {
        ("probeint"@, 100, 2, i32::MAX, "probing interval"@)
    } else if i == 86 {
        ("proberounds"@, 2, 1, i32::MAX, "probing rounds"@)
    } else if i == 87 {
        ("profile"@, 2, 0, 4, "profile level"@)
    } else if i == 88 {
        ("promote"@, 1, 0, 1, "promote clauses"@)
    } else if i == 89 {
        ("quiet"@, 0, 0, 1, "disable all messages"@)
    } else if i == 90 {
        ("randec"@, 1, 0, 1, "random decisions"@)
    } else if i == 91 {
        ("randecfocused"@, 1, 0, 1, "random decisions in focused mode"@)
    } else if i == 92 {
        ("randecinit"@, 500, 0, i32::MAX, "random decisions interval"@)
    } else if i == 93 {
        ("randecint"@, 500, 0, i32::MAX, "initial random decisions interval"@)
    } else if i == 94 {
        ("randeclength"@, 10, 1, i32::MAX, "random conflicts length"@)
    } else if i == 95 {
        ("randecstable"@, 0, 0, 1, "random decisions in stable mode"@)
    } else if i == 96 {
        ("reduce"@, 1, 0, 1, "learned clause reduction"@)
    } else if i == 97 {
        ("reducehigh"@, 900, 0, 1000, "high reduce fraction per mille"@)
    } else if i == 98 {
        ("reduceinit"@, 1000, 2, 100_000, "initial reduce interval"@)
    } else if i == 99 {
        ("reduceint"@, 1000, 2, 100_000, "base reduce interval"@)
    } else if i == 100 {
        ("reducelow"@, 500, 0, 1000, "low reduce fraction per mille"@)
    } else if i == 101 {
        ("reluctant"@, 1, 0, 1, "stable reluctant doubling restarting"@)
    } else if i == 102 {
        ("reluctantint"@, 1024, 2, 32_768, "reluctant interval"@)
    } else if i == 103 {
        ("reluctantlim"@, 1_048_576, 0, 1_073_741_824, "reluctant limit (0=unlimited)"@)
    } else if i == 104 {
        ("reorder"@, 2, 0, 2, "reorder decisions (1=stable-mode-only)"@)
    } else if i == 105 {
        ("reorderinit"@, 10_000, 0, 100_000, "initial reorder interval"@)
    } else if i == 106 {
        ("reorderint"@, 10_000, 1, 100_000, "base reorder interval"@)
    } else if i == 107 {
        ("reordermaxsize"@, 100, 2, 256, "reorder maximum clause size"@)
    } else if i == 108 {
        ("rephase"@, 1, 0, 1, "reinitialization of decision phases"@)
    } else if i == 109 {
        ("rephaseinit"@, 1000, 10, 100_000, "initial rephase interval"@)
    } else if i == 110 {
        ("rephaseint"@, 1000, 10, 100_000, "base rephase interval"@)
    } else if i == 111 {
        ("restart"@, 1, 0, 1, "enable restarts"@)
    } else if i == 112 {
        ("restartint"@, RESTARTINT_DEFAULT, 1, 10_000, "base restart interval"@)
    } else if i == 113 {
        ("restartmargin"@, 10, 0, 25, "fast/slow margin in percent"@)
    } else if i == 114 {
        ("restartreusetrail"@, 1, 0, 1, "restarts tries to reuse trail"@)
    } else if i == 115 {
        ("seed"@, 0, 0, i32::MAX, "random seed"@)
    } else if i == 116 {
        ("shrink"@, 3, 0, 3, "learned clauses (1=bin,2=lrg,3=rec)"@)
    } else if i == 117 {
        ("simplify"@, 1, 0, 1, "enable probing and elimination"@)
    } else if i == 118 {
        ("smallclauses"@, 100_000, 0, i32::MAX, "small clauses limit"@)
    } else if i == 119 {
        ("stable"@, STABLE_DEFAULT, 0, 2, "enable stable search mode"@)
    } else if i == 120 {
        ("statistics"@, 0, 0, 1, "print complete statistics"@)
    } else if i == 121 {
        ("substitute"@, 1, 0, 1, "equivalent literal substitution"@)
    } else if i == 122 {
        ("substituteeffort"@, 10, 1, 1000, "effort in per mille"@)
    } else if i == 123 {
        ("substituterounds"@, 2, 1, 100, "maximum substitution rounds"@)
    } else if i == 124 {
        ("subsumeclslim"@, 1000, 1, i32::MAX, "subsumption clause size limit"@)
    } else if i == 125 {
        ("subsumeocclim"@, 1000, 0, i32::MAX, "subsumption occurrence limit"@)
    } else if i == 126 {
        ("sweep"@, 1, 0, 1, "enable SAT sweeping"@)
    } else if i == 127 {
        ("sweepclauses"@, 1024, 0, i32::MAX, "environment clauses"@)
    } else if i == 128 {
        ("sweepcomplete"@, 0, 0, 1, "run SAT sweeping until completion"@)
    } else if i == 129 {
        ("sweepdepth"@, 2, 0, i32::MAX, "environment depth"@)
    } else if i == 130 {
        ("sweepeffort"@, 100, 0, 10_000, "effort in per mille"@)
    } else if i == 131 {
        ("sweepfliprounds"@, 1, 0, i32::MAX, "flipping rounds"@)
    } else if i == 132 {
        ("sweepmaxclauses"@, 32_768, 2, i32::MAX, "maximum environment clauses"@)
    } else if i == 133 {
        ("sweepmaxdepth"@, 3, 1, i32::MAX, "maximum environment depth"@)
    } else if i == 134 {
        ("sweepmaxvars"@, 8192, 2, i32::MAX, "maximum environment variables"@)
    } else if i == 135 {
        ("sweeprand"@, 0, 0, 1, "randomize sweeping environment"@)
    } else if i == 136 {
        ("sweepvars"@, 256, 0, i32::MAX, "environment variables"@)
    } else if i == 137 {
        ("target"@, TARGET_DEFAULT, 0, 2, "target phases (1=stable,2=focused)"@)
    } else if i == 138 {
        ("tier1"@, 2, 1, 100, "learned clause tier one glue limit"@)
    } else if i == 139 {
        ("tier1relative"@, 500, 0, 1000, "relative tier one glue limit"@)
    } else if i == 140 {
        ("tier2"@, 6, 1, 1000, "learned clause tier two glue limit"@)
    } else if i == 141 {
        ("tier2relative"@, 900, 0, 1000, "relative tier two glue limit"@)
    } else if i == 142 {
        ("transitive"@, 1, 0, 1, "transitive reduction of binary clauses"@)
    } else if i == 143 {
        ("transitiveeffort"@, 20, 0, 2000, "effort in per mille"@)
    } else if i == 144 {
        ("transitivekeep"@, 1, 0, 1, "keep transitivity candidates"@)
    } else if i == 145 {
        ("tumble"@, 1, 0, 1, "tumbled external indices order"@)
    } else if i == 146 {
        ("verbose"@, 0, 0, 3, "verbosity level"@)
    } else if i == 147 {
        ("vivify"@, 1, 0, 1, "vivify clauses"@)
    } else if i == 148 {
        ("vivifyeffort"@, 100, 0, 1000, "effort in per mille"@)
    } else if i == 149 {
        ("vivifyfocusedtiers"@, 1, 0, 1, "use focused tier limits"@)
    } else if i == 150 {
        ("vivifyirr"@, 3, 0, 100, "relative irredundant effort"@)
    } else if i == 151 {
        ("vivifysort"@, 1, 0, 1, "sort vivification candidates"@)
    } else if i == 152 {
        ("vivifytier1"@, 3, 0, 100, "relative tier1 effort"@)
    } else if i == 153 {
        ("vivifytier2"@, 3, 0, 100, "relative tier2 effort"@)
    } else if i == 154 {
        ("vivifytier3"@, 1, 0, 100, "relative tier3 effort"@)
    } else if i == 155 {
        ("walkeffort"@, 50, 0, 1_000_000, "effort in per mille"@)
    } else if i == 156 {
        ("walkinitially"@, 0, 0, 1, "initial local search"@)
    } else {
        ("warmup"@, 1, 0, 1, "initialize phases by unit propagation"@)
    }
}

/// Entry `i` of the option table.
fn option_entry(i: usize) -> (r: OptionEntry)
    requires
        i < NUM_OPTIONS,
    ensures
        entry_is(r, i as int),
{
    if i == 0 {
        OptionEntry { name: "ands", value: 1, low: 0, high: 1, description: "extract and eliminate and gates" }
    } else if i == 1 {
        OptionEntry { name: "backbone", value: 1, low: 0, high: 2, description: "binary clause backbone (2=eager)" }
    } else if i == 2 {
        OptionEntry { name: "backboneeffort", value: 20, low: 0, high: 100_000, description: "effort in per mille" }
    } else if i == 3 {
        OptionEntry { name: "backbonemaxrounds", value: 1000, low: 1, high: i32::MAX, description: "maximum backbone rounds" }
    } else if i == 4 {
        OptionEntry { name: "backbonerounds", value: 100, low: 1, high: i32::MAX, description: "backbone rounds limit" }
    } else if i == 5 {
        OptionEntry { name: "bigbigfraction", value: 990, low: 0, high: 1000, description: "big binary clause fraction per mille" }
    } else if i == 6 {
        OptionEntry { name: "bump", value: 1, low: 0, high: 1, description: "enable variable bumping" }
    } else if i == 7 {
        OptionEntry { name: "bumpreasons", value: 1, low: 0, high: 1, description: "bump reason side literals too" }
    } else if i == 8 {
        OptionEntry { name: "bumpreasonslimit", value: 10, low: 1, high: i32::MAX, description: "relative reason literals limit" }
    } else if i == 9 {
        OptionEntry { name: "bumpreasonsrate", value: 10, low: 1, high: i32::MAX, description: "decision rate limit" }
    } else if i == 10 {
        OptionEntry { name: "chrono", value: 1, low: 0, high: 1, description: "allow chronological backtracking" }
    } else if i == 11 {
        OptionEntry { name: "chronolevels", value: 100, low: 0, high: i32::MAX, description: "maximum jumped over levels" }
    } else if i == 12 {
        OptionEntry { name: "compact", value: 1, low: 0, high: 1, description: "enable compacting garbage collection" }
    } else if i == 13 {
        OptionEntry { name: "compactlim", value: 10, low: 0, high: 100, description: "compact inactive limit (in percent)" }
    } else if i == 14 {
        OptionEntry { name: "congruence", value: 1, low: 0, high: 1, description: "congruence closure on extracted gates" }
    } else if i == 15 {
        OptionEntry { name: "congruenceandarity", value: 1_000_000, low: 2, high: 50_000_000, description: "AND gate arity limit" }
    } else if i == 16 {
        OptionEntry { name: "congruenceands", value: 1, low: 0, high: 1, description: "extract AND gates for congruence closure" }
    } else if i == 17 {
        OptionEntry { name: "congruencebinaries", value: 1, low: 0, high: 1, description: "extract certain binary clauses" }
    } else if i == 18 {
        OptionEntry { name: "congruenceites", value: 1, low: 0, high: 1, description: "extract ITE gates for congruence closure" }
    } else if i == 19 {
        OptionEntry { name: "congruenceonce", value: 0, low: 0, high: 1, description: "congruence closure only initially" }
    } else if i == 20 {
        OptionEntry { name: "congruencexorarity", value: 4, low: 2, high: 20, description: "congruence XOR gate arity limit" }
    } else if i == 21 {
        OptionEntry { name: "congruencexorcounts", value: 2, low: 1, high: i32::MAX, description: "XOR counting rounds" }
    } else if i == 22 {
        OptionEntry { name: "congruencexors", value: 1, low: 0, high: 1, description: "extract XOR gates for congruence closure" }
    } else if i == 23 {
        OptionEntry { name: "decay", value: 50, low: 1, high: 200, description: "per mille scores decay" }
    } else if i == 24 {
        OptionEntry { name: "definitioncores", value: 2, low: 1, high: 100, description: "how many cores" }
    } else if i == 25 {
        OptionEntry { name: "definitions", value: 1, low: 0, high: 1, description: "extract general definitions" }
    } else if i == 26 {
        OptionEntry { name: "definitionticks", value: 1_000_000, low: 0, high: i32::MAX, description: "kitten ticks limits" }
    } else if i == 27 {
        OptionEntry { name: "defraglim", value: 75, low: 50, high: 100, description: "usable defragmentation limit in percent" }
    } else if i == 28 {
        OptionEntry { name: "defragsize", value: 262_144, low: 10, high: i32::MAX, description: "size defragmentation limit" }
    } else if i == 29 {
        OptionEntry { name: "eagersubsume", value: 4, low: 0, high: 4, description: "eagerly subsume previous learned clauses" }
    } else if i == 30 {
        OptionEntry { name: "eliminate", value: 1, low: 0, high: 1, description: "bounded variable elimination BVE" }
    } else if i == 31 {
        OptionEntry { name: "eliminatebound", value: 16, low: 0, high: 8192, description: "maximum elimination bound" }
    } else if i == 32 {
        OptionEntry { name: "eliminateclslim", value: 100, low: 1, high: i32::MAX, description: "elimination clause size limit" }
    } else if i == 33 {
        OptionEntry { name: "eliminateeffort", value: 100, low: 0, high: 2000, description: "effort in per mille" }
    } else if i == 34 {
        OptionEntry { name: "eliminateinit", value: 500, low: 0, high: i32::MAX, description: "initial elimination interval" }
    } else if i == 35 {
        OptionEntry { name: "eliminateint", value: 500, low: 10, high: i32::MAX, description: "base elimination interval" }
    } else if i == 36 {
        OptionEntry { name: "eliminateocclim", value: 2000, low: 0, high: i32::MAX, description: "elimination occurrence limit" }
    } else if i == 37 {
        OptionEntry { name: "eliminaterounds", value: 2, low: 1, high: 10_000, description: "elimination rounds limit" }
    } else if i == 38 {
        OptionEntry { name: "emafast", value: 33, low: 10, high: 1_000_000, description: "fast exponential moving average window" }
    } else if i == 39 {
        OptionEntry { name: "emaslow", value: 100_000, low: 100, high: 1_000_000, description: "slow exponential moving average window" }
    } else if i == 40 {
        OptionEntry { name: "equivalences", value: 1, low: 0, high: 1, description: "extract and eliminate equivalence gates" }
    } else if i == 41 {
        OptionEntry { name: "extract", value: 1, low: 0, high: 1, description: "extract gates in variable elimination" }
    } else if i == 42 {
        OptionEntry { name: "factor", value: 1, low: 0, high: 1, description: "bounded variable addition" }
    } else if i == 43 {
        OptionEntry { name: "factorcandrounds", value: 2, low: 0, high: i32::MAX, description: "candidates reduction rounds" }
    } else if i == 44 {
        OptionEntry { name: "factordelay", value: 4, low: 0, high: 12, description: "delaying factor" }
    } else if i == 45 {
        OptionEntry { name: "factoreffort", value: 50, low: 0, high: 1_000_000, description: "bounded variable effort in per mille" }
    } else if i == 46 {
        OptionEntry { name: "factorhops", value: 3, low: 1, high: 10, description: "structural factoring heuristic hops" }
    } else if i == 47 {
        OptionEntry { name: "factoriniticks", value: 700, low: 1, high: 1_000_000, description: "initial ticks ticks in millions" }
    } else if i == 48 {
        OptionEntry { name: "factorsize", value: 5, low: 2, high: i32::MAX, description: "bounded variable addition clause size" }
    } else if i == 49 {
        OptionEntry { name: "factorstructural", value: 0, low: 0, high: 1, description: "structural bounded variable addition" }
    } else if i == 50 {
        OptionEntry { name: "fastel", value: 0, low: 0, high: 1, description: "initial fast variable elimination" }
    } else if i == 51 {
        OptionEntry { name: "fastelclslim", value: 100, low: 1, high: i32::MAX, description: "fast elimination clause length limit" }
    } else if i == 52 {
        OptionEntry { name: "fastelim", value: 8, low: 1, high: 1000, description: "fast elimination resolvents limit" }
    } else if i == 53 {
        OptionEntry { name: "fasteloccs", value: 100, low: 1, high: 1000, description: "fast elimination occurrence limit" }
    } else if i == 54 {
        OptionEntry { name: "fastelrounds", value: 4, low: 1, high: 1000, description: "fast elimination rounds" }
    } else if i == 55 {
        OptionEntry { name: "fastelsub", value: 1, low: 0, high: 1, description: "forward subsuming fast variable elimination" }
    } else if i == 56 {
        OptionEntry { name: "flushproof", value: 0, low: 0, high: 1, description: "flush proof lines immediately" }
    } else if i == 57 {
        OptionEntry { name: "focusedtiers", value: 1, low: 0, high: 1, description: "always used focused mode tiers" }
    } else if i == 58 {
        OptionEntry { name: "forcephase", value: 0, low: 0, high: 1, description: "force initial phase" }
    } else if i == 59 {
        OptionEntry { name: "forward", value: 1, low: 0, high: 1, description: "forward subsumption in BVE" }
    } else if i == 60 {
        OptionEntry { name: "forwardeffort", value: 100, low: 0, high: 1_000_000, description: "effort in per mille" }
    } else if i == 61 {
        OptionEntry { name: "ifthenelse", value: 1, low: 0, high: 1, description: "extract and eliminate if-then-else gates" }
    } else if i == 62 {
        OptionEntry { name: "incremental", value: 0, low: 0, high: 1, description: "enable incremental solving" }
    } else if i == 63 {
        OptionEntry { name: "jumpreasons", value: 1, low: 0, high: 1, description: "jump binary reasons" }
    } else if i == 64 {
        OptionEntry { name: "lucky", value: 1, low: 0, high: 1, description: "try some lucky assignments" }
    } else if i == 65 {
        OptionEntry { name: "luckyearly", value: 1, low: 0, high: 1, description: "lucky assignments before preprocessing" }
    } else if i == 66 {
        OptionEntry { name: "luckylate", value: 1, low: 0, high: 1, description: "lucky assignments after preprocessing" }
    } else if i == 67 {
        OptionEntry { name: "mineffort", value: 10, low: 0, high: i32::MAX, description: "minimum absolute effort in millions" }
    } else if i == 68 {
        OptionEntry { name: "minimize", value: 1, low: 0, high: 1, description: "learned clause minimization" }
    } else if i == 69 {
        OptionEntry { name: "minimizedepth", value: 1000, low: 1, high: 1_000_000, description: "minimization depth" }
    } else if i == 70 {
        OptionEntry { name: "minimizeticks", value: 1, low: 0, high: 1, description: "count ticks in minimize and shrink" }
    } else if i == 71 {
        OptionEntry { name: "modeinit", value: 1000, low: 10, high: 100_000_000, description: "initial focused conflicts limit" }
    } else if i == 72 {
        OptionEntry { name: "modeint", value: 1000, low: 10, high: 100_000_000, description: "focused conflicts interval" }
    } else if i == 73 {
        OptionEntry { name: "otfs", value: 1, low: 0, high: 1, description: "on-the-fly strengthening" }
    } else if i == 74 {
        OptionEntry { name: "phase", value: 1, low: 0, high: 1, description: "initial decision phase" }
    } else if i == 75 {
        OptionEntry { name: "phasesaving", value: 1, low: 0, high: 1, description: "enable phase saving" }
    } else if i == 76 {
        OptionEntry { name: "preprocess", value: 1, low: 0, high: 1, description: "initial preprocessing" }
    } else if i == 77 {
        OptionEntry { name: "preprocessbackbone", value: 1, low: 0, high: 1, description: "backbone preprocessing" }
    } else if i == 78 {
        OptionEntry { name: "preprocesscongruence", value: 1, low: 0, high: 1, description: "congruence preprocessing" }
    } else if i == 79 {
        OptionEntry { name: "preprocessfactor", value: 1, low: 0, high: 1, description: "variable addition preprocessing" }
    } else if i == 80 {
        OptionEntry { name: "preprocessprobe", value: 1, low: 0, high: 1, description: "probing preprocessing" }
    } else if i == 81 {
        OptionEntry { name: "preprocessrounds", value: 1, low: 1, high: i32::MAX, description: "initial preprocessing rounds" }
    } else if i == 82 {
        OptionEntry { name: "preprocessweep", value: 1, low: 0, high: 1, description: "sweep preprocessing" }
    } else if i == 83 {
        OptionEntry { name: "probe", value: 1, low: 0, high: 1, description: "enable probing" }
    } else if i == 84 {
        OptionEntry { name: "probeinit", value: 100, low: 0, high: i32::MAX, description: "initial probing interval" }
    } else if i == 85 {
        OptionEntry { name: "probeint", value: 100, low: 2, high: i32::MAX, description: "probing interval" }
    } else if i == 86 {
        OptionEntry { name: "proberounds", value: 2, low: 1, high: i32::MAX, description: "probing rounds" }
    } else if i == 87 {
        OptionEntry { name: "profile", value: 2, low: 0, high: 4, description: "profile level" }
    } else if i == 88 {
        OptionEntry { name: "promote", value: 1, low: 0, high: 1, description: "promote clauses" }
    } else if i == 89 {
        OptionEntry { name: "quiet", value: 0, low: 0, high: 1, description: "disable all messages" }
    } else if i == 90 {
        OptionEntry { name: "randec", value: 1, low: 0, high: 1, description: "random decisions" }
    } else if i == 91 {
        OptionEntry { name: "randecfocused", value: 1, low: 0, high: 1, description: "random decisions in focused mode" }
    } else if i == 92 {
        OptionEntry { name: "randecinit", value: 500, low: 0, high: i32::MAX, description: "random decisions interval" }
    } else if i == 93 {
        OptionEntry { name: "randecint", value: 500, low: 0, high: i32::MAX, description: "initial random decisions interval" }
    } else if i == 94 {
        OptionEntry { name: "randeclength", value: 10, low: 1, high: i32::MAX, description: "random conflicts length" }
    } else if i == 95 {
        OptionEntry { name: "randecstable", value: 0, low: 0, high: 1, description: "random decisions in stable mode" }
    } else if i == 96 {
        OptionEntry { name: "reduce", value: 1, low: 0, high: 1, description: "learned clause reduction" }
    } else if i == 97 {
        OptionEntry { name: "reducehigh", value: 900, low: 0, high: 1000, description: "high reduce fraction per mille" }
    } else if i == 98 {
        OptionEntry { name: "reduceinit", value: 1000, low: 2, high: 100_000, description: "initial reduce interval" }
    } else if i == 99 {
        OptionEntry { name: "reduceint", value: 1000, low: 2, high: 100_000, description: "base reduce interval" }
    } else if i == 100 {
        OptionEntry { name: "reducelow", value: 500, low: 0, high: 1000, description: "low reduce fraction per mille" }
    } else if i == 101 {
        OptionEntry { name: "reluctant", value: 1, low: 0, high: 1, description: "stable reluctant doubling restarting" }
    } else if i == 102 {
        OptionEntry { name: "reluctantint", value: 1024, low: 2, high: 32_768, description: "reluctant interval" }
    } else if i == 103 {
        OptionEntry { name: "reluctantlim", value: 1_048_576, low: 0, high: 1_073_741_824, description: "reluctant limit (0=unlimited)" }
    } else if i == 104 {
        OptionEntry { name: "reorder", value: 2, low: 0, high: 2, description: "reorder decisions (1=stable-mode-only)" }
    } else if i == 105 {
        OptionEntry { name: "reorderinit", value: 10_000, low: 0, high: 100_000, description: "initial reorder interval" }
    } else if i == 106 {
        OptionEntry { name: "reorderint", value: 10_000, low: 1, high: 100_000, description: "base reorder interval" }
    } else if i == 107 {
        OptionEntry { name: "reordermaxsize", value: 100, low: 2, high: 256, description: "reorder maximum clause size" }
    } else if i == 108 {
        OptionEntry { name: "rephase", value: 1, low: 0, high: 1, description: "reinitialization of decision phases" }
    } else if i == 109 {
        OptionEntry { name: "rephaseinit", value: 1000, low: 10, high: 100_000, description: "initial rephase interval" }
    } else if i == 110 {
        OptionEntry { name: "rephaseint", value: 1000, low: 10, high: 100_000, description: "base rephase interval" }
    } else if i == 111 {
        OptionEntry { name: "restart", value: 1, low: 0, high: 1, description: "enable restarts" }
    } else if i == 112 {
        OptionEntry { name: "restartint", value: RESTARTINT_DEFAULT, low: 1, high: 10_000, description: "base restart interval" }
    } else if i == 113 {
        OptionEntry { name: "restartmargin", value: 10, low: 0, high: 25, description: "fast/slow margin in percent" }
    } else if i == 114 {
        OptionEntry { name: "restartreusetrail", value: 1, low: 0, high: 1, description: "restarts tries to reuse trail" }
    } else if i == 115 {
        OptionEntry { name: "seed", value: 0, low: 0, high: i32::MAX, description: "random seed" }
    } else if i == 116 {
        OptionEntry { name: "shrink", value: 3, low: 0, high: 3, description: "learned clauses (1=bin,2=lrg,3=rec)" }
    } else if i == 117 {
        OptionEntry { name: "simplify", value: 1, low: 0, high: 1, description: "enable probing and elimination" }
    } else if i == 118 {
        OptionEntry { name: "smallclauses", value: 100_000, low: 0, high: i32::MAX, description: "small clauses limit" }
    } else if i == 119 {
        OptionEntry { name: "stable", value: STABLE_DEFAULT, low: 0, high: 2, description: "enable stable search mode" }
    } else if i == 120 {
        OptionEntry { name: "statistics", value: 0, low: 0, high: 1, description: "print complete statistics" }
    } else if i == 121 {
        OptionEntry { name: "substitute", value: 1, low: 0, high: 1, description: "equivalent literal substitution" }
    } else if i == 122 {
        OptionEntry { name: "substituteeffort", value: 10, low: 1, high: 1000, description: "effort in per mille" }
    } else if i == 123 {
        OptionEntry { name: "substituterounds", value: 2, low: 1, high: 100, description: "maximum substitution rounds" }
    } else if i == 124 {
        OptionEntry { name: "subsumeclslim", value: 1000, low: 1, high: i32::MAX, description: "subsumption clause size limit" }
    } else if i == 125 {
        OptionEntry { name: "subsumeocclim", value: 1000, low: 0, high: i32::MAX, description: "subsumption occurrence limit" }
    } else if i == 126 {
        OptionEntry { name: "sweep", value: 1, low: 0, high: 1, description: "enable SAT sweeping" }
    } else if i == 127 {
        OptionEntry { name: "sweepclauses", value: 1024, low: 0, high: i32::MAX, description: "environment clauses" }
    } else if i == 128 {
        OptionEntry { name: "sweepcomplete", value: 0, low: 0, high: 1, description: "run SAT sweeping until completion" }
    } else if i == 129 {
        OptionEntry { name: "sweepdepth", value: 2, low: 0, high: i32::MAX, description: "environment depth" }
    } else if i == 130 {
        OptionEntry { name: "sweepeffort", value: 100, low: 0, high: 10_000, description: "effort in per mille" }
    } else if i == 131 {
        OptionEntry { name: "sweepfliprounds", value: 1, low: 0, high: i32::MAX, description: "flipping rounds" }
    } else if i == 132 {
        OptionEntry { name: "sweepmaxclauses", value: 32_768, low: 2, high: i32::MAX, description: "maximum environment clauses" }
    } else if i == 133 {
        OptionEntry { name: "sweepmaxdepth", value: 3, low: 1, high: i32::MAX, description: "maximum environment depth" }
    } else if i == 134 {
        OptionEntry { name: "sweepmaxvars", value: 8192, low: 2, high: i32::MAX, description: "maximum environment variables" }
    } else if i == 135 {
        OptionEntry { name: "sweeprand", value: 0, low: 0, high: 1, description: "randomize sweeping environment" }
    } else if i == 136 {
        OptionEntry { name: "sweepvars", value: 256, low: 0, high: i32::MAX, description: "environment variables" }
    } else if i == 137 {
        OptionEntry { name: "target", value: TARGET_DEFAULT, low: 0, high: 2, description: "target phases (1=stable,2=focused)" }
    } else if i == 138 {
        OptionEntry { name: "tier1", value: 2, low: 1, high: 100, description: "learned clause tier one glue limit" }
    } else if i == 139 {
        OptionEntry { name: "tier1relative", value: 500, low: 0, high: 1000, description: "relative tier one glue limit" }
    } else if i == 140 {
        OptionEntry { name: "tier2", value: 6, low: 1, high: 1000, description: "learned clause tier two glue limit" }
    } else if i == 141 {
        OptionEntry { name: "tier2relative", value: 900, low: 0, high: 1000, description: "relative tier two glue limit" }
    } else if i == 142 {
        OptionEntry { name: "transitive", value: 1, low: 0, high: 1, description: "transitive reduction of binary clauses" }
    } else if i == 143 {
        OptionEntry { name: "transitiveeffort", value: 20, low: 0, high: 2000, description: "effort in per mille" }
    } else if i == 144 {
        OptionEntry { name: "transitivekeep", value: 1, low: 0, high: 1, description: "keep transitivity candidates" }
    } else if i == 145 {
        OptionEntry { name: "tumble", value: 1, low: 0, high: 1, description: "tumbled external indices order" }
    } else if i == 146 {
        OptionEntry { name: "verbose", value: 0, low: 0, high: 3, description: "verbosity level" }
    } else if i == 147 {
        OptionEntry { name: "vivify", value: 1, low: 0, high: 1, description: "vivify clauses" }
    } else if i == 148 {
        OptionEntry { name: "vivifyeffort", value: 100, low: 0, high: 1000, description: "effort in per mille" }
    } else if i == 149 {
        OptionEntry { name: "vivifyfocusedtiers", value: 1, low: 0, high: 1, description: "use focused tier limits" }
    } else if i == 150 {
        OptionEntry { name: "vivifyirr", value: 3, low: 0, high: 100, description: "relative irredundant effort" }
    } else if i == 151 {
        OptionEntry { name: "vivifysort", value: 1, low: 0, high: 1, description: "sort vivification candidates" }
    } else if i == 152 {
        OptionEntry { name: "vivifytier1", value: 3, low: 0, high: 100, description: "relative tier1 effort" }
    } else if i == 153 {
        OptionEntry { name: "vivifytier2", value: 3, low: 0, high: 100, description: "relative tier2 effort" }
    } else if i == 154 {
        OptionEntry { name: "vivifytier3", value: 1, low: 0, high: 100, description: "relative tier3 effort" }
    } else if i == 155 {
        OptionEntry { name: "walkeffort", value: 50, low: 0, high: 1_000_000, description: "effort in per mille" }
    } else if i == 156 {
        OptionEntry { name: "walkinitially", value: 0, low: 0, high: 1, description: "initial local search" }
    } else {
        OptionEntry { name: "warmup", value: 1, low: 0, high: 1, description: "initialize phases by unit propagation" }
    }
}


/// The name of option `i`.
pub open spec fn option_name(i: int) -> Seq<char> {
    option_spec(i).0
}

/// `e` is entry `i` of the table.
pub open spec fn entry_is(e: OptionEntry, i: int) -> bool {
    &&& e.name@ == option_spec(i).0
    &&& e.value == option_spec(i).1
    &&& e.low == option_spec(i).2
    &&& e.high == option_spec(i).3
    &&& e.description@ == option_spec(i).4
}

/// `e` is one of the entries of the table.
pub open spec fn is_table_entry(e: OptionEntry) -> bool {
    exists|i: int| 0 <= i < NUM_OPTIONS && entry_is(e, i)
}

/// Whether `name` names an option.
pub open spec fn is_option_name(name: Seq<char>) -> bool {
    exists|i: int| 0 <= i < NUM_OPTIONS && #[trigger] option_name(i) == name
}

/// The position of option `name` in the table.
pub open spec fn option_index(name: Seq<char>) -> int {
    choose|i: int| 0 <= i < NUM_OPTIONS && #[trigger] option_name(i) == name
}

/// The whole table.
pub fn option_table() -> (r: Vec<OptionEntry>)
    ensures
        r@.len() == NUM_OPTIONS,
        forall|i: int| 0 <= i < NUM_OPTIONS ==> entry_is(#[trigger] r@[i], i),
{
    let mut r: Vec<OptionEntry> = Vec::new();
    let mut i: usize = 0;
    while i < NUM_OPTIONS
        invariant
            i <= NUM_OPTIONS,
            r@.len() == i,
            forall|j: int| 0 <= j < i ==> entry_is(#[trigger] r@[j], j),
        decreases NUM_OPTIONS - i,
    {
        r.push(option_entry(i));
        i += 1;
    }
    r
}

/*------------------------------------------------------------------------*/
// The table is sorted by name.

/// The first `n + 1` names are increasing and fit the name buffer.
pub open spec fn adjacent_sorted(n: int) -> bool
    decreases n,
{
    if n <= 0 {
        option_name(0).len() < OPTIONS_MAX_NAME_BUFFER_SIZE
    } else {
        &&& adjacent_sorted(n - 1)
        &&& chars_order(option_name(n - 1), option_name(n)) < 0
        &&& option_name(n).len() < OPTIONS_MAX_NAME_BUFFER_SIZE
    }
}

proof fn lemma_names_ordered_0()
    requires
        adjacent_sorted(0),
    ensures
        adjacent_sorted(20),
{
    reveal_with_fuel(prefix_eq, 21);
    reveal_strlit("ands");
    reveal_strlit("backbone");
    reveal_strlit("backboneeffort");
    reveal_strlit("backbonemaxrounds");
    reveal_strlit("backbonerounds");
    reveal_strlit("bigbigfraction");
    reveal_strlit("bump");
    reveal_strlit("bumpreasons");
    reveal_strlit("bumpreasonslimit");
    reveal_strlit("bumpreasonsrate");
    reveal_strlit("chrono");
    reveal_strlit("chronolevels");
    reveal_strlit("compact");
    reveal_strlit("compactlim");
    reveal_strlit("congruence");
    reveal_strlit("congruenceandarity");
    reveal_strlit("congruenceands");
    reveal_strlit("congruencebinaries");
    reveal_strlit("congruenceites");
    reveal_strlit("congruenceonce");
    reveal_strlit("congruencexorarity");
    lemma_chars_less_at(option_name(0), option_name(1), 0);
    assert(adjacent_sorted(1));
    lemma_chars_less_at(option_name(1), option_name(2), 8);
    assert(adjacent_sorted(2));
    lemma_chars_less_at(option_name(2), option_name(3), 8);
    assert(adjacent_sorted(3));
    lemma_chars_less_at(option_name(3), option_name(4), 8);
    assert(adjacent_sorted(4));
    lemma_chars_less_at(option_name(4), option_name(5), 1);
    assert(adjacent_sorted(5));
    lemma_chars_less_at(option_name(5), option_name(6), 1);
    assert(adjacent_sorted(6));
    lemma_chars_less_at(option_name(6), option_name(7), 4);
    assert(adjacent_sorted(7));
    lemma_chars_less_at(option_name(7), option_name(8), 11);
    assert(adjacent_sorted(8));
    lemma_chars_less_at(option_name(8), option_name(9), 11);
    assert(adjacent_sorted(9));
    lemma_chars_less_at(option_name(9), option_name(10), 0);
    assert(adjacent_sorted(10));
    lemma_chars_less_at(option_name(10), option_name(11), 6);
    assert(adjacent_sorted(11));
    lemma_chars_less_at(option_name(11), option_name(12), 1);
    assert(adjacent_sorted(12));
    lemma_chars_less_at(option_name(12), option_name(13), 7);
    assert(adjacent_sorted(13));
    lemma_chars_less_at(option_name(13), option_name(14), 2);
    assert(adjacent_sorted(14));
    lemma_chars_less_at(option_name(14), option_name(15), 10);
    assert(adjacent_sorted(15));
    lemma_chars_less_at(option_name(15), option_name(16), 13);
    assert(adjacent_sorted(16));
    lemma_chars_less_at(option_name(16), option_name(17), 10);
    assert(adjacent_sorted(17));
    lemma_chars_less_at(option_name(17), option_name(18), 10);
    assert(adjacent_sorted(18));
    lemma_chars_less_at(option_name(18), option_name(19), 10);
    assert(adjacent_sorted(19));
    lemma_chars_less_at(option_name(19), option_name(20), 10);
    assert(adjacent_sorted(20));
}

proof fn lemma_names_ordered_1()
    requires
        adjacent_sorted(20),
    ensures
        adjacent_sorted(40),
{
    reveal_with_fuel(prefix_eq, 21);
    reveal_strlit("congruencexorarity");
    reveal_strlit("congruencexorcounts");
    reveal_strlit("congruencexors");
    reveal_strlit("decay");
    reveal_strlit("definitioncores");
    reveal_strlit("definitions");
    reveal_strlit("definitionticks");
    reveal_strlit("defraglim");
    reveal_strlit("defragsize");
    reveal_strlit("eagersubsume");
    reveal_strlit("eliminate");
    reveal_strlit("eliminatebound");
    reveal_strlit("eliminateclslim");
    reveal_strlit("eliminateeffort");
    reveal_strlit("eliminateinit");
    reveal_strlit("eliminateint");
    reveal_strlit("eliminateocclim");
    reveal_strlit("eliminaterounds");
    reveal_strlit("emafast");
    reveal_strlit("emaslow");
    reveal_strlit("equivalences");
    lemma_chars_less_at(option_name(20), option_name(21), 13);
    assert(adjacent_sorted(21));
    lemma_chars_less_at(option_name(21), option_name(22), 13);
    assert(adjacent_sorted(22));
    lemma_chars_less_at(option_name(22), option_name(23), 0);
    assert(adjacent_sorted(23));
    lemma_chars_less_at(option_name(23), option_name(24), 2);
    assert(adjacent_sorted(24));
    lemma_chars_less_at(option_name(24), option_name(25), 10);
    assert(adjacent_sorted(25));
    lemma_chars_less_at(option_name(25), option_name(26), 10);
    assert(adjacent_sorted(26));
    lemma_chars_less_at(option_name(26), option_name(27), 3);
    assert(adjacent_sorted(27));
    lemma_chars_less_at(option_name(27), option_name(28), 6);
    assert(adjacent_sorted(28));
    lemma_chars_less_at(option_name(28), option_name(29), 0);
    assert(adjacent_sorted(29));
    lemma_chars_less_at(option_name(29), option_name(30), 1);
    assert(adjacent_sorted(30));
    lemma_chars_less_at(option_name(30), option_name(31), 9);
    assert(adjacent_sorted(31));
    lemma_chars_less_at(option_name(31), option_name(32), 9);
    assert(adjacent_sorted(32));
    lemma_chars_less_at(option_name(32), option_name(33), 9);
    assert(adjacent_sorted(33));
    lemma_chars_less_at(option_name(33), option_name(34), 9);
    assert(adjacent_sorted(34));
    lemma_chars_less_at(option_name(34), option_name(35), 11);
    assert(adjacent_sorted(35));
    lemma_chars_less_at(option_name(35), option_name(36), 9);
    assert(adjacent_sorted(36));
    lemma_chars_less_at(option_name(36), option_name(37), 9);
    assert(adjacent_sorted(37));
    lemma_chars_less_at(option_name(37), option_name(38), 1);
    assert(adjacent_sorted(38));
    lemma_chars_less_at(option_name(38), option_name(39), 3);
    assert(adjacent_sorted(39));
    lemma_chars_less_at(option_name(39), option_name(40), 1);
    assert(adjacent_sorted(40));
}

proof fn lemma_names_ordered_2()
    requires
        adjacent_sorted(40),
    ensures
        adjacent_sorted(60),
{
    reveal_with_fuel(prefix_eq, 21);
    reveal_strlit("equivalences");
    reveal_strlit("extract");
    reveal_strlit("factor");
    reveal_strlit("factorcandrounds");
    reveal_strlit("factordelay");
    reveal_strlit("factoreffort");
    reveal_strlit("factorhops");
    reveal_strlit("factoriniticks");
    reveal_strlit("factorsize");
    reveal_strlit("factorstructural");
    reveal_strlit("fastel");
    reveal_strlit("fastelclslim");
    reveal_strlit("fastelim");
    reveal_strlit("fasteloccs");
    reveal_strlit("fastelrounds");
    reveal_strlit("fastelsub");
    reveal_strlit("flushproof");
    reveal_strlit("focusedtiers");
    reveal_strlit("forcephase");
    reveal_strlit("forward");
    reveal_strlit("forwardeffort");
    lemma_chars_less_at(option_name(40), option_name(41), 1);
    assert(adjacent_sorted(41));
    lemma_chars_less_at(option_name(41), option_name(42), 0);
    assert(adjacent_sorted(42));
    lemma_chars_less_at(option_name(42), option_name(43), 6);
    assert(adjacent_sorted(43));
    lemma_chars_less_at(option_name(43), option_name(44), 6);
    assert(adjacent_sorted(44));
    lemma_chars_less_at(option_name(44), option_name(45), 6);
    assert(adjacent_sorted(45));
    lemma_chars_less_at(option_name(45), option_name(46), 6);
    assert(adjacent_sorted(46));
    lemma_chars_less_at(option_name(46), option_name(47), 6);
    assert(adjacent_sorted(47));
    lemma_chars_less_at(option_name(47), option_name(48), 6);
    assert(adjacent_sorted(48));
    lemma_chars_less_at(option_name(48), option_name(49), 7);
    assert(adjacent_sorted(49));
    lemma_chars_less_at(option_name(49), option_name(50), 2);
    assert(adjacent_sorted(50));
    lemma_chars_less_at(option_name(50), option_name(51), 6);
    assert(adjacent_sorted(51));
    lemma_chars_less_at(option_name(51), option_name(52), 6);
    assert(adjacent_sorted(52));
    lemma_chars_less_at(option_name(52), option_name(53), 6);
    assert(adjacent_sorted(53));
    lemma_chars_less_at(option_name(53), option_name(54), 6);
    assert(adjacent_sorted(54));
    lemma_chars_less_at(option_name(54), option_name(55), 6);
    assert(adjacent_sorted(55));
    lemma_chars_less_at(option_name(55), option_name(56), 1);
    assert(adjacent_sorted(56));
    lemma_chars_less_at(option_name(56), option_name(57), 1);
    assert(adjacent_sorted(57));
    lemma_chars_less_at(option_name(57), option_name(58), 2);
    assert(adjacent_sorted(58));
    lemma_chars_less_at(option_name(58), option_name(59), 3);
    assert(adjacent_sorted(59));
    lemma_chars_less_at(option_name(59), option_name(60), 7);
    assert(adjacent_sorted(60));
}

proof fn lemma_names_ordered_3()
    requires
        adjacent_sorted(60),
    ensures
        adjacent_sorted(80),
{
    reveal_with_fuel(prefix_eq, 21);
    reveal_strlit("forwardeffort");
    reveal_strlit("ifthenelse");
    reveal_strlit("incremental");
    reveal_strlit("jumpreasons");
    reveal_strlit("lucky");
    reveal_strlit("luckyearly");
    reveal_strlit("luckylate");
    reveal_strlit("mineffort");
    reveal_strlit("minimize");
    reveal_strlit("minimizedepth");
    reveal_strlit("minimizeticks");
    reveal_strlit("modeinit");
    reveal_strlit("modeint");
    reveal_strlit("otfs");
    reveal_strlit("phase");
    reveal_strlit("phasesaving");
    reveal_strlit("preprocess");
    reveal_strlit("preprocessbackbone");
    reveal_strlit("preprocesscongruence");
    reveal_strlit("preprocessfactor");
    reveal_strlit("preprocessprobe");
    lemma_chars_less_at(option_name(60), option_name(61), 0);
    assert(adjacent_sorted(61));
    lemma_chars_less_at(option_name(61), option_name(62), 1);
    assert(adjacent_sorted(62));
    lemma_chars_less_at(option_name(62), option_name(63), 0);
    assert(adjacent_sorted(63));
    lemma_chars_less_at(option_name(63), option_name(64), 0);
    assert(adjacent_sorted(64));
    lemma_chars_less_at(option_name(64), option_name(65), 5);
    assert(adjacent_sorted(65));
    lemma_chars_less_at(option_name(65), option_name(66), 5);
    assert(adjacent_sorted(66));
    lemma_chars_less_at(option_name(66), option_name(67), 0);
    assert(adjacent_sorted(67));
    lemma_chars_less_at(option_name(67), option_name(68), 3);
    assert(adjacent_sorted(68));
    lemma_chars_less_at(option_name(68), option_name(69), 8);
    assert(adjacent_sorted(69));
    lemma_chars_less_at(option_name(69), option_name(70), 8);
    assert(adjacent_sorted(70));
    lemma_chars_less_at(option_name(70), option_name(71), 1);
    assert(adjacent_sorted(71));
    lemma_chars_less_at(option_name(71), option_name(72), 6);
    assert(adjacent_sorted(72));
    lemma_chars_less_at(option_name(72), option_name(73), 0);
    assert(adjacent_sorted(73));
    lemma_chars_less_at(option_name(73), option_name(74), 0);
    assert(adjacent_sorted(74));
    lemma_chars_less_at(option_name(74), option_name(75), 5);
    assert(adjacent_sorted(75));
    lemma_chars_less_at(option_name(75), option_name(76), 1);
    assert(adjacent_sorted(76));
    lemma_chars_less_at(option_name(76), option_name(77), 10);
    assert(adjacent_sorted(77));
    lemma_chars_less_at(option_name(77), option_name(78), 10);
    assert(adjacent_sorted(78));
    lemma_chars_less_at(option_name(78), option_name(79), 10);
    assert(adjacent_sorted(79));
    lemma_chars_less_at(option_name(79), option_name(80), 10);
    assert(adjacent_sorted(80));
}

proof fn lemma_names_ordered_4()
    requires
        adjacent_sorted(80),
    ensures
        adjacent_sorted(100),
{
    reveal_with_fuel(prefix_eq, 21);
    reveal_strlit("preprocessprobe");
    reveal_strlit("preprocessrounds");
    reveal_strlit("preprocessweep");
    reveal_strlit("probe");
    reveal_strlit("probeinit");
    reveal_strlit("probeint");
    reveal_strlit("proberounds");
    reveal_strlit("profile");
    reveal_strlit("promote");
    reveal_strlit("quiet");
    reveal_strlit("randec");
    reveal_strlit("randecfocused");
    reveal_strlit("randecinit");
    reveal_strlit("randecint");
    reveal_strlit("randeclength");
    reveal_strlit("randecstable");
    reveal_strlit("reduce");
    reveal_strlit("reducehigh");
    reveal_strlit("reduceinit");
    reveal_strlit("reduceint");
    reveal_strlit("reducelow");
    lemma_chars_less_at(option_name(80), option_name(81), 10);
    assert(adjacent_sorted(81));
    lemma_chars_less_at(option_name(81), option_name(82), 10);
    assert(adjacent_sorted(82));
    lemma_chars_less_at(option_name(82), option_name(83), 2);
    assert(adjacent_sorted(83));
    lemma_chars_less_at(option_name(83), option_name(84), 5);
    assert(adjacent_sorted(84));
    lemma_chars_less_at(option_name(84), option_name(85), 7);
    assert(adjacent_sorted(85));
    lemma_chars_less_at(option_name(85), option_name(86), 5);
    assert(adjacent_sorted(86));
    lemma_chars_less_at(option_name(86), option_name(87), 3);
    assert(adjacent_sorted(87));
    lemma_chars_less_at(option_name(87), option_name(88), 3);
    assert(adjacent_sorted(88));
    lemma_chars_less_at(option_name(88), option_name(89), 0);
    assert(adjacent_sorted(89));
    lemma_chars_less_at(option_name(89), option_name(90), 0);
    assert(adjacent_sorted(90));
    lemma_chars_less_at(option_name(90), option_name(91), 6);
    assert(adjacent_sorted(91));
    lemma_chars_less_at(option_name(91), option_name(92), 6);
    assert(adjacent_sorted(92));
    lemma_chars_less_at(option_name(92), option_name(93), 8);
    assert(adjacent_sorted(93));
    lemma_chars_less_at(option_name(93), option_name(94), 6);
    assert(adjacent_sorted(94));
    lemma_chars_less_at(option_name(94), option_name(95), 6);
    assert(adjacent_sorted(95));
    lemma_chars_less_at(option_name(95), option_name(96), 1);
    assert(adjacent_sorted(96));
    lemma_chars_less_at(option_name(96), option_name(97), 6);
    assert(adjacent_sorted(97));
    lemma_chars_less_at(option_name(97), option_name(98), 6);
    assert(adjacent_sorted(98));
    lemma_chars_less_at(option_name(98), option_name(99), 8);
    assert(adjacent_sorted(99));
    lemma_chars_less_at(option_name(99), option_name(100), 6);
    assert(adjacent_sorted(100));
}

proof fn lemma_names_ordered_5()
    requires
        adjacent_sorted(100),
    ensures
        adjacent_sorted(120),
{
    reveal_with_fuel(prefix_eq, 21);
    reveal_strlit("reducelow");
    reveal_strlit("reluctant");
    reveal_strlit("reluctantint");
    reveal_strlit("reluctantlim");
    reveal_strlit("reorder");
    reveal_strlit("reorderinit");
    reveal_strlit("reorderint");
    reveal_strlit("reordermaxsize");
    reveal_strlit("rephase");
    reveal_strlit("rephaseinit");
    reveal_strlit("rephaseint");
    reveal_strlit("restart");
    reveal_strlit("restartint");
    reveal_strlit("restartmargin");
    reveal_strlit("restartreusetrail");
    reveal_strlit("seed");
    reveal_strlit("shrink");
    reveal_strlit("simplify");
    reveal_strlit("smallclauses");
    reveal_strlit("stable");
    reveal_strlit("statistics");
    lemma_chars_less_at(option_name(100), option_name(101), 2);
    assert(adjacent_sorted(101));
    lemma_chars_less_at(option_name(101), option_name(102), 9);
    assert(adjacent_sorted(102));
    lemma_chars_less_at(option_name(102), option_name(103), 9);
    assert(adjacent_sorted(103));
    lemma_chars_less_at(option_name(103), option_name(104), 2);
    assert(adjacent_sorted(104));
    lemma_chars_less_at(option_name(104), option_name(105), 7);
    assert(adjacent_sorted(105));
    lemma_chars_less_at(option_name(105), option_name(106), 9);
    assert(adjacent_sorted(106));
    lemma_chars_less_at(option_name(106), option_name(107), 7);
    assert(adjacent_sorted(107));
    lemma_chars_less_at(option_name(107), option_name(108), 2);
    assert(adjacent_sorted(108));
    lemma_chars_less_at(option_name(108), option_name(109), 7);
    assert(adjacent_sorted(109));
    lemma_chars_less_at(option_name(109), option_name(110), 9);
    assert(adjacent_sorted(110));
    lemma_chars_less_at(option_name(110), option_name(111), 2);
    assert(adjacent_sorted(111));
    lemma_chars_less_at(option_name(111), option_name(112), 7);
    assert(adjacent_sorted(112));
    lemma_chars_less_at(option_name(112), option_name(113), 7);
    assert(adjacent_sorted(113));
    lemma_chars_less_at(option_name(113), option_name(114), 7);
    assert(adjacent_sorted(114));
    lemma_chars_less_at(option_name(114), option_name(115), 0);
    assert(adjacent_sorted(115));
    lemma_chars_less_at(option_name(115), option_name(116), 1);
    assert(adjacent_sorted(116));
    lemma_chars_less_at(option_name(116), option_name(117), 1);
    assert(adjacent_sorted(117));
    lemma_chars_less_at(option_name(117), option_name(118), 1);
    assert(adjacent_sorted(118));
    lemma_chars_less_at(option_name(118), option_name(119), 1);
    assert(adjacent_sorted(119));
    lemma_chars_less_at(option_name(119), option_name(120), 3);
    assert(adjacent_sorted(120));
}

proof fn lemma_names_ordered_6()
    requires
        adjacent_sorted(120),
    ensures
        adjacent_sorted(140),
{
    reveal_with_fuel(prefix_eq, 21);
    reveal_strlit("statistics");
    reveal_strlit("substitute");
    reveal_strlit("substituteeffort");
    reveal_strlit("substituterounds");
    reveal_strlit("subsumeclslim");
    reveal_strlit("subsumeocclim");
    reveal_strlit("sweep");
    reveal_strlit("sweepclauses");
    reveal_strlit("sweepcomplete");
    reveal_strlit("sweepdepth");
    reveal_strlit("sweepeffort");
    reveal_strlit("sweepfliprounds");
    reveal_strlit("sweepmaxclauses");
    reveal_strlit("sweepmaxdepth");
    reveal_strlit("sweepmaxvars");
    reveal_strlit("sweeprand");
    reveal_strlit("sweepvars");
    reveal_strlit("target");
    reveal_strlit("tier1");
    reveal_strlit("tier1relative");
    reveal_strlit("tier2");
    lemma_chars_less_at(option_name(120), option_name(121), 1);
    assert(adjacent_sorted(121));
    lemma_chars_less_at(option_name(121), option_name(122), 10);
    assert(adjacent_sorted(122));
    lemma_chars_less_at(option_name(122), option_name(123), 10);
    assert(adjacent_sorted(123));
    lemma_chars_less_at(option_name(123), option_name(124), 4);
    assert(adjacent_sorted(124));
    lemma_chars_less_at(option_name(124), option_name(125), 7);
    assert(adjacent_sorted(125));
    lemma_chars_less_at(option_name(125), option_name(126), 1);
    assert(adjacent_sorted(126));
    lemma_chars_less_at(option_name(126), option_name(127), 5);
    assert(adjacent_sorted(127));
    lemma_chars_less_at(option_name(127), option_name(128), 6);
    assert(adjacent_sorted(128));
    lemma_chars_less_at(option_name(128), option_name(129), 5);
    assert(adjacent_sorted(129));
    lemma_chars_less_at(option_name(129), option_name(130), 5);
    assert(adjacent_sorted(130));
    lemma_chars_less_at(option_name(130), option_name(131), 5);
    assert(adjacent_sorted(131));
    lemma_chars_less_at(option_name(131), option_name(132), 5);
    assert(adjacent_sorted(132));
    lemma_chars_less_at(option_name(132), option_name(133), 8);
    assert(adjacent_sorted(133));
    lemma_chars_less_at(option_name(133), option_name(134), 8);
    assert(adjacent_sorted(134));
    lemma_chars_less_at(option_name(134), option_name(135), 5);
    assert(adjacent_sorted(135));
    lemma_chars_less_at(option_name(135), option_name(136), 5);
    assert(adjacent_sorted(136));
    lemma_chars_less_at(option_name(136), option_name(137), 0);
    assert(adjacent_sorted(137));
    lemma_chars_less_at(option_name(137), option_name(138), 1);
    assert(adjacent_sorted(138));
    lemma_chars_less_at(option_name(138), option_name(139), 5);
    assert(adjacent_sorted(139));
    lemma_chars_less_at(option_name(139), option_name(140), 4);
    assert(adjacent_sorted(140));
}

proof fn lemma_names_ordered_7()
    requires
        adjacent_sorted(140),
    ensures
        adjacent_sorted(157),
{
    reveal_with_fuel(prefix_eq, 21);
    reveal_strlit("tier2");
    reveal_strlit("tier2relative");
    reveal_strlit("transitive");
    reveal_strlit("transitiveeffort");
    reveal_strlit("transitivekeep");
    reveal_strlit("tumble");
    reveal_strlit("verbose");
    reveal_strlit("vivify");
    reveal_strlit("vivifyeffort");
    reveal_strlit("vivifyfocusedtiers");
    reveal_strlit("vivifyirr");
    reveal_strlit("vivifysort");
    reveal_strlit("vivifytier1");
    reveal_strlit("vivifytier2");
    reveal_strlit("vivifytier3");
    reveal_strlit("walkeffort");
    reveal_strlit("walkinitially");
    reveal_strlit("warmup");
    lemma_chars_less_at(option_name(140), option_name(141), 5);
    assert(adjacent_sorted(141));
    lemma_chars_less_at(option_name(141), option_name(142), 1);
    assert(adjacent_sorted(142));
    lemma_chars_less_at(option_name(142), option_name(143), 10);
    assert(adjacent_sorted(143));
    lemma_chars_less_at(option_name(143), option_name(144), 10);
    assert(adjacent_sorted(144));
    lemma_chars_less_at(option_name(144), option_name(145), 1);
    assert(adjacent_sorted(145));
    lemma_chars_less_at(option_name(145), option_name(146), 0);
    assert(adjacent_sorted(146));
    lemma_chars_less_at(option_name(146), option_name(147), 1);
    assert(adjacent_sorted(147));
    lemma_chars_less_at(option_name(147), option_name(148), 6);
    assert(adjacent_sorted(148));
    lemma_chars_less_at(option_name(148), option_name(149), 6);
    assert(adjacent_sorted(149));
    lemma_chars_less_at(option_name(149), option_name(150), 6);
    assert(adjacent_sorted(150));
    lemma_chars_less_at(option_name(150), option_name(151), 6);
    assert(adjacent_sorted(151));
    lemma_chars_less_at(option_name(151), option_name(152), 6);
    assert(adjacent_sorted(152));
    lemma_chars_less_at(option_name(152), option_name(153), 10);
    assert(adjacent_sorted(153));
    lemma_chars_less_at(option_name(153), option_name(154), 10);
    assert(adjacent_sorted(154));
    lemma_chars_less_at(option_name(154), option_name(155), 0);
    assert(adjacent_sorted(155));
    lemma_chars_less_at(option_name(155), option_name(156), 4);
    assert(adjacent_sorted(156));
    lemma_chars_less_at(option_name(156), option_name(157), 2);
    assert(adjacent_sorted(157));
}

proof fn lemma_adjacent_sorted()
    ensures
        adjacent_sorted(NUM_OPTIONS - 1),
{
    reveal_strlit("ands");
    lemma_names_ordered_0();
    lemma_names_ordered_1();
    lemma_names_ordered_2();
    lemma_names_ordered_3();
    lemma_names_ordered_4();
    lemma_names_ordered_5();
    lemma_names_ordered_6();
    lemma_names_ordered_7();
}


proof fn lemma_adjacent_sorted_at(n: int, i: int)
    requires
        adjacent_sorted(n),
        0 <= i < n,
    ensures
        chars_order(option_name(i), option_name(i + 1)) < 0,
    decreases n,
{
    if i < n - 1 {
        lemma_adjacent_sorted_at(n - 1, i);
    }
}

proof fn lemma_sorted_between(i: int, j: int)
    requires
        adjacent_sorted(NUM_OPTIONS - 1),
        0 <= i < j < NUM_OPTIONS,
    ensures
        chars_order(option_name(i), option_name(j)) < 0,
    decreases j - i,
{
    lemma_adjacent_sorted_at(NUM_OPTIONS - 1, j - 1);
    if i < j - 1 {
        lemma_sorted_between(i, j - 1);
        lemma_chars_order_trans(option_name(i), option_name(j - 1), option_name(j));
    }
}

proof fn lemma_adjacent_len(n: int, i: int)
    requires
        adjacent_sorted(n),
        0 <= i <= n,
    ensures
        option_name(i).len() < OPTIONS_MAX_NAME_BUFFER_SIZE,
    decreases n,
{
    if i < n {
        lemma_adjacent_len(n - 1, i);
    }
}

/// Every option name, with the zero that ends it, fits the name buffer.
pub proof fn lemma_names_fit()
    ensures
        forall|i: int| 0 <= i < NUM_OPTIONS ==> #[trigger] option_name(i).len() + 1 <= OPTIONS_MAX_NAME_BUFFER_SIZE,
{
    lemma_adjacent_sorted();
    assert forall|i: int| 0 <= i < NUM_OPTIONS implies #[trigger] option_name(i).len() + 1 <= OPTIONS_MAX_NAME_BUFFER_SIZE by {
        lemma_adjacent_len(NUM_OPTIONS - 1, i);
    }
}

/// The option names are strictly increasing.
pub proof fn lemma_names_sorted()
    ensures
        forall|i: int, j: int| 0 <= i < j < NUM_OPTIONS ==>
            chars_order(#[trigger] option_name(i), #[trigger] option_name(j)) < 0,
{
    lemma_adjacent_sorted();
    assert forall|i: int, j: int| 0 <= i < j < NUM_OPTIONS implies
        chars_order(#[trigger] option_name(i), #[trigger] option_name(j)) < 0 by {
        lemma_sorted_between(i, j);
    }
}

/// No two options share a name.
pub proof fn lemma_names_distinct()
    ensures
        forall|i: int, j: int| 0 <= i < NUM_OPTIONS && 0 <= j < NUM_OPTIONS && i != j ==>
            #[trigger] option_name(i) != #[trigger] option_name(j),
{
    lemma_names_sorted();
    assert forall|i: int, j: int| 0 <= i < NUM_OPTIONS && 0 <= j < NUM_OPTIONS && i != j implies
        #[trigger] option_name(i) != #[trigger] option_name(j) by {
        lemma_chars_order_zero(option_name(i), option_name(j));
        lemma_chars_order_antisym(option_name(i), option_name(j));
    }
}

/*------------------------------------------------------------------------*/
// Looking up options.

/// Option `i` is found under its own name.
proof fn lemma_option_index(i: int)
    requires
        0 <= i < NUM_OPTIONS,
    ensures
        is_option_name(option_name(i)),
        option_index(option_name(i)) == i,
{
    lemma_names_distinct();
    assert(option_name(i) == option_name(i));
    let j = option_index(option_name(i));
    assert(0 <= j < NUM_OPTIONS && option_name(j) == option_name(i));
}

/// Binary search for `name` in the table.
fn find_option(name: &str) -> (r: Option<usize>)
    ensures
        r is Some <==> is_option_name(name@),
        r is Some ==> r->0 < NUM_OPTIONS && r->0 == option_index(name@) && option_name(r->0 as int) == name@,
{
    proof {
        lemma_names_sorted();
        lemma_names_distinct();
    }
    let mut l: usize = 0;
    let mut r: usize = NUM_OPTIONS;
    while l + 1 < r
        invariant
            l < r <= NUM_OPTIONS,
            forall|i: int, j: int| 0 <= i < j < NUM_OPTIONS ==>
                chars_order(#[trigger] option_name(i), #[trigger] option_name(j)) < 0,
            forall|i: int| 0 <= i < l ==> #[trigger] option_name(i) != name@,
            forall|i: int| r <= i < NUM_OPTIONS ==> #[trigger] option_name(i) != name@,
        decreases r - l,
    {
        let m = l + (r - l) / 2;
        let o = option_entry(m);
        let c = compare_str(name, o.name);
        if c < 0 {
            proof {
                assert forall|i: int| m <= i < NUM_OPTIONS implies #[trigger] option_name(i) != name@ by {
                    if i > m {
                        lemma_chars_order_trans(name@, option_name(m as int), option_name(i));
                    }
                    lemma_chars_order_zero(name@, option_name(i));
                }
            }
            r = m;
        } else if c > 0 {
            proof {
                lemma_chars_order_antisym(name@, option_name(m as int));
                assert forall|i: int| 0 <= i < m implies #[trigger] option_name(i) != name@ by {
                    lemma_chars_order_trans(option_name(i), option_name(m as int), name@);
                    lemma_chars_order_zero(option_name(i), name@);
                }
            }
            l = m;
        } else {
            proof {
                lemma_chars_order_zero(name@, option_name(m as int));
                lemma_option_index(m as int);
            }
            return Some(m);
        }
    }
    let o = option_entry(l);
    if str_eq(o.name, name) {
        proof {
            lemma_option_index(l as int);
        }
        Some(l)
    } else {
        proof {
            assert forall|i: int| 0 <= i < NUM_OPTIONS implies #[trigger] option_name(i) != name@ by {
                if i == l {
                }
            }
        }
        None
    }
}

/// The table entry of option `name`, if there is one.
pub fn options_has(name: &str) -> (r: Option<OptionEntry>)
    ensures
        r is Some <==> is_option_name(name@),
        r is Some ==> entry_is(r->0, option_index(name@)),
{
    match find_option(name) {
        Some(i) => Some(option_entry(i)),
        None => None,
    }
}

/*------------------------------------------------------------------------*/
// The option values.

/// One value per option, in table order.
#[derive(Clone, Copy, PartialEq, Eq, Structural)]
pub struct Options {
    pub ands: i32,
    pub backbone: i32,
    pub backboneeffort: i32,
    pub backbonemaxrounds: i32,
    pub backbonerounds: i32,
    pub bigbigfraction: i32,
    pub bump: i32,
    pub bumpreasons: i32,
    pub bumpreasonslimit: i32,
    pub bumpreasonsrate: i32,
    pub chrono: i32,
    pub chronolevels: i32,
    pub compact: i32,
    pub compactlim: i32,
    pub congruence: i32,
    pub congruenceandarity: i32,
    pub congruenceands: i32,
    pub congruencebinaries: i32,
    pub congruenceites: i32,
    pub congruenceonce: i32,
    pub congruencexorarity: i32,
    pub congruencexorcounts: i32,
    pub congruencexors: i32,
    pub decay: i32,
    pub definitioncores: i32,
    pub definitions: i32,
    pub definitionticks: i32,
    pub defraglim: i32,
    pub defragsize: i32,
    pub eagersubsume: i32,
    pub eliminate: i32,
    pub eliminatebound: i32,
    pub eliminateclslim: i32,
    pub eliminateeffort: i32,
    pub eliminateinit: i32,
    pub eliminateint: i32,
    pub eliminateocclim: i32,
    pub eliminaterounds: i32,
    pub emafast: i32,
    pub emaslow: i32,
    pub equivalences: i32,
    pub extract: i32,
    pub factor: i32,
    pub factorcandrounds: i32,
    pub factordelay: i32,
    pub factoreffort: i32,
    pub factorhops: i32,
    pub factoriniticks: i32,
    pub factorsize: i32,
    pub factorstructural: i32,
    pub fastel: i32,
    pub fastelclslim: i32,
    pub fastelim: i32,
    pub fasteloccs: i32,
    pub fastelrounds: i32,
    pub fastelsub: i32,
    pub flushproof: i32,
    pub focusedtiers: i32,
    pub forcephase: i32,
    pub forward: i32,
    pub forwardeffort: i32,
    pub ifthenelse: i32,
    pub incremental: i32,
    pub jumpreasons: i32,
    pub lucky: i32,
    pub luckyearly: i32,
    pub luckylate: i32,
    pub mineffort: i32,
    pub minimize: i32,
    pub minimizedepth: i32,
    pub minimizeticks: i32,
    pub modeinit: i32,
    pub modeint: i32,
    pub otfs: i32,
    pub phase: i32,
    pub phasesaving: i32,
    pub preprocess: i32,
    pub preprocessbackbone: i32,
    pub preprocesscongruence: i32,
    pub preprocessfactor: i32,
    pub preprocessprobe: i32,
    pub preprocessrounds: i32,
    pub preprocessweep: i32,
    pub probe: i32,
    pub probeinit: i32,
    pub probeint: i32,
    pub proberounds: i32,
    pub profile: i32,
    pub promote: i32,
    pub quiet: i32,
    pub randec: i32,
    pub randecfocused: i32,
    pub randecinit: i32,
    pub randecint: i32,
    pub randeclength: i32,
    pub randecstable: i32,
    pub reduce: i32,
    pub reducehigh: i32,
    pub reduceinit: i32,
    pub reduceint: i32,
    pub reducelow: i32,
    pub reluctant: i32,
    pub reluctantint: i32,
    pub reluctantlim: i32,
    pub reorder: i32,
    pub reorderinit: i32,
    pub reorderint: i32,
    pub reordermaxsize: i32,
    pub rephase: i32,
    pub rephaseinit: i32,
    pub rephaseint: i32,
    pub restart: i32,
    pub restartint: i32,
    pub restartmargin: i32,
    pub restartreusetrail: i32,
    pub seed: i32,
    pub shrink: i32,
    pub simplify: i32,
    pub smallclauses: i32,
    pub stable: i32,
    pub statistics: i32,
    pub substitute: i32,
    pub substituteeffort: i32,
    pub substituterounds: i32,
    pub subsumeclslim: i32,
    pub subsumeocclim: i32,
    pub sweep: i32,
    pub sweepclauses: i32,
    pub sweepcomplete: i32,
    pub sweepdepth: i32,
    pub sweepeffort: i32,
    pub sweepfliprounds: i32,
    pub sweepmaxclauses: i32,
    pub sweepmaxdepth: i32,
    pub sweepmaxvars: i32,
    pub sweeprand: i32,
    pub sweepvars: i32,
    pub target: i32,
    pub tier1: i32,
    pub tier1relative: i32,
    pub tier2: i32,
    pub tier2relative: i32,
    pub transitive: i32,
    pub transitiveeffort: i32,
    pub transitivekeep: i32,
    pub tumble: i32,
    pub verbose: i32,
    pub vivify: i32,
    pub vivifyeffort: i32,
    pub vivifyfocusedtiers: i32,
    pub vivifyirr: i32,
    pub vivifysort: i32,
    pub vivifytier1: i32,
    pub vivifytier2: i32,
    pub vivifytier3: i32,
    pub walkeffort: i32,
    pub walkinitially: i32,
    pub warmup: i32,
}

impl Options {
    /// The value of option `i`.
    pub open spec fn field(self, i: int) -> i32 {
        if i == 0 {
            self.ands
        } else if i == 1 {
            self.backbone
        } else if i == 2 {
            self.backboneeffort
        } else if i == 3 {
            self.backbonemaxrounds
        } else if i == 4 {
            self.backbonerounds
        } else if i == 5 {
            self.bigbigfraction
        } else if i == 6 {
            self.bump
        } else if i == 7 {
            self.bumpreasons
        } else if i == 8 {
            self.bumpreasonslimit
        } else if i == 9 {
            self.bumpreasonsrate
        } else if i == 10 {
            self.chrono
        } else if i == 11 {
            self.chronolevels
        } else if i == 12 {
            self.compact
        } else if i == 13 {
            self.compactlim
        } else if i == 14 {
            self.congruence
        } else if i == 15 {
            self.congruenceandarity
        } else if i == 16 {
            self.congruenceands
        } else if i == 17 {
            self.congruencebinaries
        } else if i == 18 {
            self.congruenceites
        } else if i == 19 {
            self.congruenceonce
        } else if i == 20 {
            self.congruencexorarity
        } else if i == 21 {
            self.congruencexorcounts
        } else if i == 22 {
            self.congruencexors
        } else if i == 23 {
            self.decay
        } else if i == 24 {
            self.definitioncores
        } else if i == 25 {
            self.definitions
        } else if i == 26 {
            self.definitionticks
        } else if i == 27 {
            self.defraglim
        } else if i == 28 {
            self.defragsize
        } else if i == 29 {
            self.eagersubsume
        } else if i == 30 {
            self.eliminate
        } else if i == 31 {
            self.eliminatebound
        } else if i == 32 {
            self.eliminateclslim
        } else if i == 33 {
            self.eliminateeffort
        } else if i == 34 {
            self.eliminateinit
        } else if i == 35 {
            self.eliminateint
        } else if i == 36 {
            self.eliminateocclim
        } else if i == 37 {
            self.eliminaterounds
        } else if i == 38 {
            self.emafast
        } else if i == 39 {
            self.emaslow
        } else if i == 40 {
            self.equivalences
        } else if i == 41 {
            self.extract
        } else if i == 42 {
            self.factor
        } else if i == 43 {
            self.factorcandrounds
        } else if i == 44 {
            self.factordelay
        } else if i == 45 {
            self.factoreffort
        } else if i == 46 {
            self.factorhops
        } else if i == 47 {
            self.factoriniticks
        } else if i == 48 {
            self.factorsize
        } else if i == 49 {
            self.factorstructural
        } else if i == 50 {
            self.fastel
        } else if i == 51 {
            self.fastelclslim
        } else if i == 52 {
            self.fastelim
        } else if i == 53 {
            self.fasteloccs
        } else if i == 54 {
            self.fastelrounds
        } else if i == 55 {
            self.fastelsub
        } else if i == 56 {
            self.flushproof
        } else if i == 57 {
            self.focusedtiers
        } else if i == 58 {
            self.forcephase
        } else if i == 59 {
            self.forward
        } else if i == 60 {
            self.forwardeffort
        } else if i == 61 {
            self.ifthenelse
        } else if i == 62 {
            self.incremental
        } else if i == 63 {
            self.jumpreasons
        } else if i == 64 {
            self.lucky
        } else if i == 65 {
            self.luckyearly
        } else if i == 66 {
            self.luckylate
        } else if i == 67 {
            self.mineffort
        } else if i == 68 {
            self.minimize
        } else if i == 69 {
            self.minimizedepth
        } else if i == 70 {
            self.minimizeticks
        } else if i == 71 {
            self.modeinit
        } else if i == 72 {
            self.modeint
        } else if i == 73 {
            self.otfs
        } else if i == 74 {
            self.phase
        } else if i == 75 {
            self.phasesaving
        } else if i == 76 {
            self.preprocess
        } else if i == 77 {
            self.preprocessbackbone
        } else if i == 78 {
            self.preprocesscongruence
        } else if i == 79 {
            self.preprocessfactor
        } else if i == 80 {
            self.preprocessprobe
        } else if i == 81 {
            self.preprocessrounds
        } else if i == 82 {
            self.preprocessweep
        } else if i == 83 {
            self.probe
        } else if i == 84 {
            self.probeinit
        } else if i == 85 {
            self.probeint
        } else if i == 86 {
            self.proberounds
        } else if i == 87 {
            self.profile
        } else if i == 88 {
            self.promote
        } else if i == 89 {
            self.quiet
        } else if i == 90 {
            self.randec
        } else if i == 91 {
            self.randecfocused
        } else if i == 92 {
            self.randecinit
        } else if i == 93 {
            self.randecint
        } else if i == 94 {
            self.randeclength
        } else if i == 95 {
            self.randecstable
        } else if i == 96 {
            self.reduce
        } else if i == 97 {
            self.reducehigh
        } else if i == 98 {
            self.reduceinit
        } else if i == 99 {
            self.reduceint
        } else if i == 100 {
            self.reducelow
        } else if i == 101 {
            self.reluctant
        } else if i == 102 {
            self.reluctantint
        } else if i == 103 {
            self.reluctantlim
        } else if i == 104 {
            self.reorder
        } else if i == 105 {
            self.reorderinit
        } else if i == 106 {
            self.reorderint
        } else if i == 107 {
            self.reordermaxsize
        } else if i == 108 {
            self.rephase
        } else if i == 109 {
            self.rephaseinit
        } else if i == 110 {
            self.rephaseint
        } else if i == 111 {
            self.restart
        } else if i == 112 {
            self.restartint
        } else if i == 113 {
            self.restartmargin
        } else if i == 114 {
            self.restartreusetrail
        } else if i == 115 {
            self.seed
        } else if i == 116 {
            self.shrink
        } else if i == 117 {
            self.simplify
        } else if i == 118 {
            self.smallclauses
        } else if i == 119 {
            self.stable
        } else if i == 120 {
            self.statistics
        } else if i == 121 {
            self.substitute
        } else if i == 122 {
            self.substituteeffort
        } else if i == 123 {
            self.substituterounds
        } else if i == 124 {
            self.subsumeclslim
        } else if i == 125 {
            self.subsumeocclim
        } else if i == 126 {
            self.sweep
        } else if i == 127 {
            self.sweepclauses
        } else if i == 128 {
            self.sweepcomplete
        } else if i == 129 {
            self.sweepdepth
        } else if i == 130 {
            self.sweepeffort
        } else if i == 131 {
            self.sweepfliprounds
        } else if i == 132 {
            self.sweepmaxclauses
        } else if i == 133 {
            self.sweepmaxdepth
        } else if i == 134 {
            self.sweepmaxvars
        } else if i == 135 {
            self.sweeprand
        } else if i == 136 {
            self.sweepvars
        } else if i == 137 {
            self.target
        } else if i == 138 {
            self.tier1
        } else if i == 139 {
            self.tier1relative
        } else if i == 140 {
            self.tier2
        } else if i == 141 {
            self.tier2relative
        } else if i == 142 {
            self.transitive
        } else if i == 143 {
            self.transitiveeffort
        } else if i == 144 {
            self.transitivekeep
        } else if i == 145 {
            self.tumble
        } else if i == 146 {
            self.verbose
        } else if i == 147 {
            self.vivify
        } else if i == 148 {
            self.vivifyeffort
        } else if i == 149 {
            self.vivifyfocusedtiers
        } else if i == 150 {
            self.vivifyirr
        } else if i == 151 {
            self.vivifysort
        } else if i == 152 {
            self.vivifytier1
        } else if i == 153 {
            self.vivifytier2
        } else if i == 154 {
            self.vivifytier3
        } else if i == 155 {
            self.walkeffort
        } else if i == 156 {
            self.walkinitially
        } else {
            self.warmup
        }
    }

    /// The options with option `i` set to `v`.
    pub open spec fn with_field(self, i: int, v: i32) -> Options {
        if i == 0 {
            Options { ands: v, ..self }
        } else if i == 1 {
            Options { backbone: v, ..self }
        } else if i == 2 {
            Options { backboneeffort: v, ..self }
        } else if i == 3 {
            Options { backbonemaxrounds: v, ..self }
        } else if i == 4 {
            Options { backbonerounds: v, ..self }
        } else if i == 5 {
            Options { bigbigfraction: v, ..self }
        } else if i == 6 {
            Options { bump: v, ..self }
        } else if i == 7 {
            Options { bumpreasons: v, ..self }
        } else if i == 8 {
            Options { bumpreasonslimit: v, ..self }
        } else if i == 9 {
            Options { bumpreasonsrate: v, ..self }
        } else if i == 10 {
            Options { chrono: v, ..self }
        } else if i == 11 {
            Options { chronolevels: v, ..self }
        } else if i == 12 {
            Options { compact: v, ..self }
        } else if i == 13 {
            Options { compactlim: v, ..self }
        } else if i == 14 {
            Options { congruence: v, ..self }
        } else if i == 15 {
            Options { congruenceandarity: v, ..self }
        } else if i == 16 {
            Options { congruenceands: v, ..self }
        } else if i == 17 {
            Options { congruencebinaries: v, ..self }
        } else if i == 18 {
            Options { congruenceites: v, ..self }
        } else if i == 19 {
            Options { congruenceonce: v, ..self }
        } else if i == 20 {
            Options { congruencexorarity: v, ..self }
        } else if i == 21 {
            Options { congruencexorcounts: v, ..self }
        } else if i == 22 {
            Options { congruencexors: v, ..self }
        } else if i == 23 {
            Options { decay: v, ..self }
        } else if i == 24 {
            Options { definitioncores: v, ..self }
        } else if i == 25 {
            Options { definitions: v, ..self }
        } else if i == 26 {
            Options { definitionticks: v, ..self }
        } else if i == 27 {
            Options { defraglim: v, ..self }
        } else if i == 28 {
            Options { defragsize: v, ..self }
        } else if i == 29 {
            Options { eagersubsume: v, ..self }
        } else if i == 30 {
            Options { eliminate: v, ..self }
        } else if i == 31 {
            Options { eliminatebound: v, ..self }
        } else if i == 32 {
            Options { eliminateclslim: v, ..self }
        } else if i == 33 {
            Options { eliminateeffort: v, ..self }
        } else if i == 34 {
            Options { eliminateinit: v, ..self }
        } else if i == 35 {
            Options { eliminateint: v, ..self }
        } else if i == 36 {
            Options { eliminateocclim: v, ..self }
        } else if i == 37 {
            Options { eliminaterounds: v, ..self }
        } else if i == 38 {
            Options { emafast: v, ..self }
        } else if i == 39 {
            Options { emaslow: v, ..self }
        } else if i == 40 {
            Options { equivalences: v, ..self }
        } else if i == 41 {
            Options { extract: v, ..self }
        } else if i == 42 {
            Options { factor: v, ..self }
        } else if i == 43 {
            Options { factorcandrounds: v, ..self }
        } else if i == 44 {
            Options { factordelay: v, ..self }
        } else if i == 45 {
            Options { factoreffort: v, ..self }
        } else if i == 46 {
            Options { factorhops: v, ..self }
        } else if i == 47 {
            Options { factoriniticks: v, ..self }
        } else if i == 48 {
            Options { factorsize: v, ..self }
        } else if i == 49 {
            Options { factorstructural: v, ..self }
        } else if i == 50 {
            Options { fastel: v, ..self }
        } else if i == 51 {
            Options { fastelclslim: v, ..self }
        } else if i == 52 {
            Options { fastelim: v, ..self }
        } else if i == 53 {
            Options { fasteloccs: v, ..self }
        } else if i == 54 {
            Options { fastelrounds: v, ..self }
        } else if i == 55 {
            Options { fastelsub: v, ..self }
        } else if i == 56 {
            Options { flushproof: v, ..self }
        } else if i == 57 {
            Options { focusedtiers: v, ..self }
        } else if i == 58 {
            Options { forcephase: v, ..self }
        } else if i == 59 {
            Options { forward: v, ..self }
        } else if i == 60 {
            Options { forwardeffort: v, ..self }
        } else if i == 61 {
            Options { ifthenelse: v, ..self }
        } else if i == 62 {
            Options { incremental: v, ..self }
        } else if i == 63 {
            Options { jumpreasons: v, ..self }
        } else if i == 64 {
            Options { lucky: v, ..self }
        } else if i == 65 {
            Options { luckyearly: v, ..self }
        } else if i == 66 {
            Options { luckylate: v, ..self }
        } else if i == 67 {
            Options { mineffort: v, ..self }
        } else if i == 68 {
            Options { minimize: v, ..self }
        } else if i == 69 {
            Options { minimizedepth: v, ..self }
        } else if i == 70 {
            Options { minimizeticks: v, ..self }
        } else if i == 71 {
            Options { modeinit: v, ..self }
        } else if i == 72 {
            Options { modeint: v, ..self }
        } else if i == 73 {
            Options { otfs: v, ..self }
        } else if i == 74 {
            Options { phase: v, ..self }
        } else if i == 75 {
            Options { phasesaving: v, ..self }
        } else if i == 76 {
            Options { preprocess: v, ..self }
        } else if i == 77 {
            Options { preprocessbackbone: v, ..self }
        } else if i == 78 {
            Options { preprocesscongruence: v, ..self }
        } else if i == 79 {
            Options { preprocessfactor: v, ..self }
        } else if i == 80 {
            Options { preprocessprobe: v, ..self }
        } else if i == 81 {
            Options { preprocessrounds: v, ..self }
        } else if i == 82 {
            Options { preprocessweep: v, ..self }
        } else if i == 83 {
            Options { probe: v, ..self }
        } else if i == 84 {
            Options { probeinit: v, ..self }
        } else if i == 85 {
            Options { probeint: v, ..self }
        } else if i == 86 {
            Options { proberounds: v, ..self }
        } else if i == 87 {
            Options { profile: v, ..self }
        } else if i == 88 {
            Options { promote: v, ..self }
        } else if i == 89 {
            Options { quiet: v, ..self }
        } else if i == 90 {
            Options { randec: v, ..self }
        } else if i == 91 {
            Options { randecfocused: v, ..self }
        } else if i == 92 {
            Options { randecinit: v, ..self }
        } else if i == 93 {
            Options { randecint: v, ..self }
        } else if i == 94 {
            Options { randeclength: v, ..self }
        } else if i == 95 {
            Options { randecstable: v, ..self }
        } else if i == 96 {
            Options { reduce: v, ..self }
        } else if i == 97 {
            Options { reducehigh: v, ..self }
        } else if i == 98 {
            Options { reduceinit: v, ..self }
        } else if i == 99 {
            Options { reduceint: v, ..self }
        } else if i == 100 {
            Options { reducelow: v, ..self }
        } else if i == 101 {
            Options { reluctant: v, ..self }
        } else if i == 102 {
            Options { reluctantint: v, ..self }
        } else if i == 103 {
            Options { reluctantlim: v, ..self }
        } else if i == 104 {
            Options { reorder: v, ..self }
        } else if i == 105 {
            Options { reorderinit: v, ..self }
        } else if i == 106 {
            Options { reorderint: v, ..self }
        } else if i == 107 {
            Options { reordermaxsize: v, ..self }
        } else if i == 108 {
            Options { rephase: v, ..self }
        } else if i == 109 {
            Options { rephaseinit: v, ..self }
        } else if i == 110 {
            Options { rephaseint: v, ..self }
        } else if i == 111 {
            Options { restart: v, ..self }
        } else if i == 112 {
            Options { restartint: v, ..self }
        } else if i == 113 {
            Options { restartmargin: v, ..self }
        } else if i == 114 {
            Options { restartreusetrail: v, ..self }
        } else if i == 115 {
            Options { seed: v, ..self }
        } else if i == 116 {
            Options { shrink: v, ..self }
        } else if i == 117 {
            Options { simplify: v, ..self }
        } else if i == 118 {
            Options { smallclauses: v, ..self }
        } else if i == 119 {
            Options { stable: v, ..self }
        } else if i == 120 {
            Options { statistics: v, ..self }
        } else if i == 121 {
            Options { substitute: v, ..self }
        } else if i == 122 {
            Options { substituteeffort: v, ..self }
        } else if i == 123 {
            Options { substituterounds: v, ..self }
        } else if i == 124 {
            Options { subsumeclslim: v, ..self }
        } else if i == 125 {
            Options { subsumeocclim: v, ..self }
        } else if i == 126 {
            Options { sweep: v, ..self }
        } else if i == 127 {
            Options { sweepclauses: v, ..self }
        } else if i == 128 {
            Options { sweepcomplete: v, ..self }
        } else if i == 129 {
            Options { sweepdepth: v, ..self }
        } else if i == 130 {
            Options { sweepeffort: v, ..self }
        } else if i == 131 {
            Options { sweepfliprounds: v, ..self }
        } else if i == 132 {
            Options { sweepmaxclauses: v, ..self }
        } else if i == 133 {
            Options { sweepmaxdepth: v, ..self }
        } else if i == 134 {
            Options { sweepmaxvars: v, ..self }
        } else if i == 135 {
            Options { sweeprand: v, ..self }
        } else if i == 136 {
            Options { sweepvars: v, ..self }
        } else if i == 137 {
            Options { target: v, ..self }
        } else if i == 138 {
            Options { tier1: v, ..self }
        } else if i == 139 {
            Options { tier1relative: v, ..self }
        } else if i == 140 {
            Options { tier2: v, ..self }
        } else if i == 141 {
            Options { tier2relative: v, ..self }
        } else if i == 142 {
            Options { transitive: v, ..self }
        } else if i == 143 {
            Options { transitiveeffort: v, ..self }
        } else if i == 144 {
            Options { transitivekeep: v, ..self }
        } else if i == 145 {
            Options { tumble: v, ..self }
        } else if i == 146 {
            Options { verbose: v, ..self }
        } else if i == 147 {
            Options { vivify: v, ..self }
        } else if i == 148 {
            Options { vivifyeffort: v, ..self }
        } else if i == 149 {
            Options { vivifyfocusedtiers: v, ..self }
        } else if i == 150 {
            Options { vivifyirr: v, ..self }
        } else if i == 151 {
            Options { vivifysort: v, ..self }
        } else if i == 152 {
            Options { vivifytier1: v, ..self }
        } else if i == 153 {
            Options { vivifytier2: v, ..self }
        } else if i == 154 {
            Options { vivifytier3: v, ..self }
        } else if i == 155 {
            Options { walkeffort: v, ..self }
        } else if i == 156 {
            Options { walkinitially: v, ..self }
        } else if i == 157 {
            Options { warmup: v, ..self }
        } else {
            self
        }
    }

    /// The value of option `i`.
    fn value_at(&self, i: usize) -> (r: i32)
        requires
            i < NUM_OPTIONS,
        ensures
            r == self.field(i as int),
    {
        if i == 0 {
            self.ands
        } else if i == 1 {
            self.backbone
        } else if i == 2 {
            self.backboneeffort
        } else if i == 3 {
            self.backbonemaxrounds
        } else if i == 4 {
            self.backbonerounds
        } else if i == 5 {
            self.bigbigfraction
        } else if i == 6 {
            self.bump
        } else if i == 7 {
            self.bumpreasons
        } else if i == 8 {
            self.bumpreasonslimit
        } else if i == 9 {
            self.bumpreasonsrate
        } else if i == 10 {
            self.chrono
        } else if i == 11 {
            self.chronolevels
        } else if i == 12 {
            self.compact
        } else if i == 13 {
            self.compactlim
        } else if i == 14 {
            self.congruence
        } else if i == 15 {
            self.congruenceandarity
        } else if i == 16 {
            self.congruenceands
        } else if i == 17 {
            self.congruencebinaries
        } else if i == 18 {
            self.congruenceites
        } else if i == 19 {
            self.congruenceonce
        } else if i == 20 {
            self.congruencexorarity
        } else if i == 21 {
            self.congruencexorcounts
        } else if i == 22 {
            self.congruencexors
        } else if i == 23 {
            self.decay
        } else if i == 24 {
            self.definitioncores
        } else if i == 25 {
            self.definitions
        } else if i == 26 {
            self.definitionticks
        } else if i == 27 {
            self.defraglim
        } else if i == 28 {
            self.defragsize
        } else if i == 29 {
            self.eagersubsume
        } else if i == 30 {
            self.eliminate
        } else if i == 31 {
            self.eliminatebound
        } else if i == 32 {
            self.eliminateclslim
        } else if i == 33 {
            self.eliminateeffort
        } else if i == 34 {
            self.eliminateinit
        } else if i == 35 {
            self.eliminateint
        } else if i == 36 {
            self.eliminateocclim
        } else if i == 37 {
            self.eliminaterounds
        } else if i == 38 {
            self.emafast
        } else if i == 39 {
            self.emaslow
        } else if i == 40 {
            self.equivalences
        } else if i == 41 {
            self.extract
        } else if i == 42 {
            self.factor
        } else if i == 43 {
            self.factorcandrounds
        } else if i == 44 {
            self.factordelay
        } else if i == 45 {
            self.factoreffort
        } else if i == 46 {
            self.factorhops
        } else if i == 47 {
            self.factoriniticks
        } else if i == 48 {
            self.factorsize
        } else if i == 49 {
            self.factorstructural
        } else if i == 50 {
            self.fastel
        } else if i == 51 {
            self.fastelclslim
        } else if i == 52 {
            self.fastelim
        } else if i == 53 {
            self.fasteloccs
        } else if i == 54 {
            self.fastelrounds
        } else if i == 55 {
            self.fastelsub
        } else if i == 56 {
            self.flushproof
        } else if i == 57 {
            self.focusedtiers
        } else if i == 58 {
            self.forcephase
        } else if i == 59 {
            self.forward
        } else if i == 60 {
            self.forwardeffort
        } else if i == 61 {
            self.ifthenelse
        } else if i == 62 {
            self.incremental
        } else if i == 63 {
            self.jumpreasons
        } else if i == 64 {
            self.lucky
        } else if i == 65 {
            self.luckyearly
        } else if i == 66 {
            self.luckylate
        } else if i == 67 {
            self.mineffort
        } else if i == 68 {
            self.minimize
        } else if i == 69 {
            self.minimizedepth
        } else if i == 70 {
            self.minimizeticks
        } else if i == 71 {
            self.modeinit
        } else if i == 72 {
            self.modeint
        } else if i == 73 {
            self.otfs
        } else if i == 74 {
            self.phase
        } else if i == 75 {
            self.phasesaving
        } else if i == 76 {
            self.preprocess
        } else if i == 77 {
            self.preprocessbackbone
        } else if i == 78 {
            self.preprocesscongruence
        } else if i == 79 {
            self.preprocessfactor
        } else if i == 80 {
            self.preprocessprobe
        } else if i == 81 {
            self.preprocessrounds
        } else if i == 82 {
            self.preprocessweep
        } else if i == 83 {
            self.probe
        } else if i == 84 {
            self.probeinit
        } else if i == 85 {
            self.probeint
        } else if i == 86 {
            self.proberounds
        } else if i == 87 {
            self.profile
        } else if i == 88 {
            self.promote
        } else if i == 89 {
            self.quiet
        } else if i == 90 {
            self.randec
        } else if i == 91 {
            self.randecfocused
        } else if i == 92 {
            self.randecinit
        } else if i == 93 {
            self.randecint
        } else if i == 94 {
            self.randeclength
        } else if i == 95 {
            self.randecstable
        } else if i == 96 {
            self.reduce
        } else if i == 97 {
            self.reducehigh
        } else if i == 98 {
            self.reduceinit
        } else if i == 99 {
            self.reduceint
        } else if i == 100 {
            self.reducelow
        } else if i == 101 {
            self.reluctant
        } else if i == 102 {
            self.reluctantint
        } else if i == 103 {
            self.reluctantlim
        } else if i == 104 {
            self.reorder
        } else if i == 105 {
            self.reorderinit
        } else if i == 106 {
            self.reorderint
        } else if i == 107 {
            self.reordermaxsize
        } else if i == 108 {
            self.rephase
        } else if i == 109 {
            self.rephaseinit
        } else if i == 110 {
            self.rephaseint
        } else if i == 111 {
            self.restart
        } else if i == 112 {
            self.restartint
        } else if i == 113 {
            self.restartmargin
        } else if i == 114 {
            self.restartreusetrail
        } else if i == 115 {
            self.seed
        } else if i == 116 {
            self.shrink
        } else if i == 117 {
            self.simplify
        } else if i == 118 {
            self.smallclauses
        } else if i == 119 {
            self.stable
        } else if i == 120 {
            self.statistics
        } else if i == 121 {
            self.substitute
        } else if i == 122 {
            self.substituteeffort
        } else if i == 123 {
            self.substituterounds
        } else if i == 124 {
            self.subsumeclslim
        } else if i == 125 {
            self.subsumeocclim
        } else if i == 126 {
            self.sweep
        } else if i == 127 {
            self.sweepclauses
        } else if i == 128 {
            self.sweepcomplete
        } else if i == 129 {
            self.sweepdepth
        } else if i == 130 {
            self.sweepeffort
        } else if i == 131 {
            self.sweepfliprounds
        } else if i == 132 {
            self.sweepmaxclauses
        } else if i == 133 {
            self.sweepmaxdepth
        } else if i == 134 {
            self.sweepmaxvars
        } else if i == 135 {
            self.sweeprand
        } else if i == 136 {
            self.sweepvars
        } else if i == 137 {
            self.target
        } else if i == 138 {
            self.tier1
        } else if i == 139 {
            self.tier1relative
        } else if i == 140 {
            self.tier2
        } else if i == 141 {
            self.tier2relative
        } else if i == 142 {
            self.transitive
        } else if i == 143 {
            self.transitiveeffort
        } else if i == 144 {
            self.transitivekeep
        } else if i == 145 {
            self.tumble
        } else if i == 146 {
            self.verbose
        } else if i == 147 {
            self.vivify
        } else if i == 148 {
            self.vivifyeffort
        } else if i == 149 {
            self.vivifyfocusedtiers
        } else if i == 150 {
            self.vivifyirr
        } else if i == 151 {
            self.vivifysort
        } else if i == 152 {
            self.vivifytier1
        } else if i == 153 {
            self.vivifytier2
        } else if i == 154 {
            self.vivifytier3
        } else if i == 155 {
            self.walkeffort
        } else if i == 156 {
            self.walkinitially
        } else {
            self.warmup
        }
    }

    /// Sets option `i` to `v`.
    fn set_at(&mut self, i: usize, v: i32)
        requires
            i < NUM_OPTIONS,
        ensures
            *final(self) == old(self).with_field(i as int, v),
    {
        if i == 0 {
            self.ands = v;
        } else if i == 1 {
            self.backbone = v;
        } else if i == 2 {
            self.backboneeffort = v;
        } else if i == 3 {
            self.backbonemaxrounds = v;
        } else if i == 4 {
            self.backbonerounds = v;
        } else if i == 5 {
            self.bigbigfraction = v;
        } else if i == 6 {
            self.bump = v;
        } else if i == 7 {
            self.bumpreasons = v;
        } else if i == 8 {
            self.bumpreasonslimit = v;
        } else if i == 9 {
            self.bumpreasonsrate = v;
        } else if i == 10 {
            self.chrono = v;
        } else if i == 11 {
            self.chronolevels = v;
        } else if i == 12 {
            self.compact = v;
        } else if i == 13 {
            self.compactlim = v;
        } else if i == 14 {
            self.congruence = v;
        } else if i == 15 {
            self.congruenceandarity = v;
        } else if i == 16 {
            self.congruenceands = v;
        } else if i == 17 {
            self.congruencebinaries = v;
        } else if i == 18 {
            self.congruenceites = v;
        } else if i == 19 {
            self.congruenceonce = v;
        } else if i == 20 {
            self.congruencexorarity = v;
        } else if i == 21 {
            self.congruencexorcounts = v;
        } else if i == 22 {
            self.congruencexors = v;
        } else if i == 23 {
            self.decay = v;
        } else if i == 24 {
            self.definitioncores = v;
        } else if i == 25 {
            self.definitions = v;
        } else if i == 26 {
            self.definitionticks = v;
        } else if i == 27 {
            self.defraglim = v;
        } else if i == 28 {
            self.defragsize = v;
        } else if i == 29 {
            self.eagersubsume = v;
        } else if i == 30 {
            self.eliminate = v;
        } else if i == 31 {
            self.eliminatebound = v;
        } else if i == 32 {
            self.eliminateclslim = v;
        } else if i == 33 {
            self.eliminateeffort = v;
        } else if i == 34 {
            self.eliminateinit = v;
        } else if i == 35 {
            self.eliminateint = v;
        } else if i == 36 {
            self.eliminateocclim = v;
        } else if i == 37 {
            self.eliminaterounds = v;
        } else if i == 38 {
            self.emafast = v;
        } else if i == 39 {
            self.emaslow = v;
        } else if i == 40 {
            self.equivalences = v;
        } else if i == 41 {
            self.extract = v;
        } else if i == 42 {
            self.factor = v;
        } else if i == 43 {
            self.factorcandrounds = v;
        } else if i == 44 {
            self.factordelay = v;
        } else if i == 45 {
            self.factoreffort = v;
        } else if i == 46 {
            self.factorhops = v;
        } else if i == 47 {
            self.factoriniticks = v;
        } else if i == 48 {
            self.factorsize = v;
        } else if i == 49 {
            self.factorstructural = v;
        } else if i == 50 {
            self.fastel = v;
        } else if i == 51 {
            self.fastelclslim = v;
        } else if i == 52 {
            self.fastelim = v;
        } else if i == 53 {
            self.fasteloccs = v;
        } else if i == 54 {
            self.fastelrounds = v;
        } else if i == 55 {
            self.fastelsub = v;
        } else if i == 56 {
            self.flushproof = v;
        } else if i == 57 {
            self.focusedtiers = v;
        } else if i == 58 {
            self.forcephase = v;
        } else if i == 59 {
            self.forward = v;
        } else if i == 60 {
            self.forwardeffort = v;
        } else if i == 61 {
            self.ifthenelse = v;
        } else if i == 62 {
            self.incremental = v;
        } else if i == 63 {
            self.jumpreasons = v;
        } else if i == 64 {
            self.lucky = v;
        } else if i == 65 {
            self.luckyearly = v;
        } else if i == 66 {
            self.luckylate = v;
        } else if i == 67 {
            self.mineffort = v;
        } else if i == 68 {
            self.minimize = v;
        } else if i == 69 {
            self.minimizedepth = v;
        } else if i == 70 {
            self.minimizeticks = v;
        } else if i == 71 {
            self.modeinit = v;
        } else if i == 72 {
            self.modeint = v;
        } else if i == 73 {
            self.otfs = v;
        } else if i == 74 {
            self.phase = v;
        } else if i == 75 {
            self.phasesaving = v;
        } else if i == 76 {
            self.preprocess = v;
        } else if i == 77 {
            self.preprocessbackbone = v;
        } else if i == 78 {
            self.preprocesscongruence = v;
        } else if i == 79 {
            self.preprocessfactor = v;
        } else if i == 80 {
            self.preprocessprobe = v;
        } else if i == 81 {
            self.preprocessrounds = v;
        } else if i == 82 {
            self.preprocessweep = v;
        } else if i == 83 {
            self.probe = v;
        } else if i == 84 {
            self.probeinit = v;
        } else if i == 85 {
            self.probeint = v;
        } else if i == 86 {
            self.proberounds = v;
        } else if i == 87 {
            self.profile = v;
        } else if i == 88 {
            self.promote = v;
        } else if i == 89 {
            self.quiet = v;
        } else if i == 90 {
            self.randec = v;
        } else if i == 91 {
            self.randecfocused = v;
        } else if i == 92 {
            self.randecinit = v;
        } else if i == 93 {
            self.randecint = v;
        } else if i == 94 {
            self.randeclength = v;
        } else if i == 95 {
            self.randecstable = v;
        } else if i == 96 {
            self.reduce = v;
        } else if i == 97 {
            self.reducehigh = v;
        } else if i == 98 {
            self.reduceinit = v;
        } else if i == 99 {
            self.reduceint = v;
        } else if i == 100 {
            self.reducelow = v;
        } else if i == 101 {
            self.reluctant = v;
        } else if i == 102 {
            self.reluctantint = v;
        } else if i == 103 {
            self.reluctantlim = v;
        } else if i == 104 {
            self.reorder = v;
        } else if i == 105 {
            self.reorderinit = v;
        } else if i == 106 {
            self.reorderint = v;
        } else if i == 107 {
            self.reordermaxsize = v;
        } else if i == 108 {
            self.rephase = v;
        } else if i == 109 {
            self.rephaseinit = v;
        } else if i == 110 {
            self.rephaseint = v;
        } else if i == 111 {
            self.restart = v;
        } else if i == 112 {
            self.restartint = v;
        } else if i == 113 {
            self.restartmargin = v;
        } else if i == 114 {
            self.restartreusetrail = v;
        } else if i == 115 {
            self.seed = v;
        } else if i == 116 {
            self.shrink = v;
        } else if i == 117 {
            self.simplify = v;
        } else if i == 118 {
            self.smallclauses = v;
        } else if i == 119 {
            self.stable = v;
        } else if i == 120 {
            self.statistics = v;
        } else if i == 121 {
            self.substitute = v;
        } else if i == 122 {
            self.substituteeffort = v;
        } else if i == 123 {
            self.substituterounds = v;
        } else if i == 124 {
            self.subsumeclslim = v;
        } else if i == 125 {
            self.subsumeocclim = v;
        } else if i == 126 {
            self.sweep = v;
        } else if i == 127 {
            self.sweepclauses = v;
        } else if i == 128 {
            self.sweepcomplete = v;
        } else if i == 129 {
            self.sweepdepth = v;
        } else if i == 130 {
            self.sweepeffort = v;
        } else if i == 131 {
            self.sweepfliprounds = v;
        } else if i == 132 {
            self.sweepmaxclauses = v;
        } else if i == 133 {
            self.sweepmaxdepth = v;
        } else if i == 134 {
            self.sweepmaxvars = v;
        } else if i == 135 {
            self.sweeprand = v;
        } else if i == 136 {
            self.sweepvars = v;
        } else if i == 137 {
            self.target = v;
        } else if i == 138 {
            self.tier1 = v;
        } else if i == 139 {
            self.tier1relative = v;
        } else if i == 140 {
            self.tier2 = v;
        } else if i == 141 {
            self.tier2relative = v;
        } else if i == 142 {
            self.transitive = v;
        } else if i == 143 {
            self.transitiveeffort = v;
        } else if i == 144 {
            self.transitivekeep = v;
        } else if i == 145 {
            self.tumble = v;
        } else if i == 146 {
            self.verbose = v;
        } else if i == 147 {
            self.vivify = v;
        } else if i == 148 {
            self.vivifyeffort = v;
        } else if i == 149 {
            self.vivifyfocusedtiers = v;
        } else if i == 150 {
            self.vivifyirr = v;
        } else if i == 151 {
            self.vivifysort = v;
        } else if i == 152 {
            self.vivifytier1 = v;
        } else if i == 153 {
            self.vivifytier2 = v;
        } else if i == 154 {
            self.vivifytier3 = v;
        } else if i == 155 {
            self.walkeffort = v;
        } else if i == 156 {
            self.walkinitially = v;
        } else {
            self.warmup = v;
        }
    }
}

impl Default for Options {
    /// Every option at its default.
    fn default() -> (r: Options)
        ensures
            forall|i: int| 0 <= i < NUM_OPTIONS ==> #[trigger] r.field(i) == option_spec(i).1,
    {
        Options {
            ands: 1,
            backbone: 1,
            backboneeffort: 20,
            backbonemaxrounds: 1000,
            backbonerounds: 100,
            bigbigfraction: 990,
            bump: 1,
            bumpreasons: 1,
            bumpreasonslimit: 10,
            bumpreasonsrate: 10,
            chrono: 1,
            chronolevels: 100,
            compact: 1,
            compactlim: 10,
            congruence: 1,
            congruenceandarity: 1_000_000,
            congruenceands: 1,
            congruencebinaries: 1,
            congruenceites: 1,
            congruenceonce: 0,
            congruencexorarity: 4,
            congruencexorcounts: 2,
            congruencexors: 1,
            decay: 50,
            definitioncores: 2,
            definitions: 1,
            definitionticks: 1_000_000,
            defraglim: 75,
            defragsize: 262_144,
            eagersubsume: 4,
            eliminate: 1,
            eliminatebound: 16,
            eliminateclslim: 100,
            eliminateeffort: 100,
            eliminateinit: 500,
            eliminateint: 500,
            eliminateocclim: 2000,
            eliminaterounds: 2,
            emafast: 33,
            emaslow: 100_000,
            equivalences: 1,
            extract: 1,
            factor: 1,
            factorcandrounds: 2,
            factordelay: 4,
            factoreffort: 50,
            factorhops: 3,
            factoriniticks: 700,
            factorsize: 5,
            factorstructural: 0,
            fastel: 0,
            fastelclslim: 100,
            fastelim: 8,
            fasteloccs: 100,
            fastelrounds: 4,
            fastelsub: 1,
            flushproof: 0,
            focusedtiers: 1,
            forcephase: 0,
            forward: 1,
            forwardeffort: 100,
            ifthenelse: 1,
            incremental: 0,
            jumpreasons: 1,
            lucky: 1,
            luckyearly: 1,
            luckylate: 1,
            mineffort: 10,
            minimize: 1,
            minimizedepth: 1000,
            minimizeticks: 1,
            modeinit: 1000,
            modeint: 1000,
            otfs: 1,
            phase: 1,
            phasesaving: 1,
            preprocess: 1,
            preprocessbackbone: 1,
            preprocesscongruence: 1,
            preprocessfactor: 1,
            preprocessprobe: 1,
            preprocessrounds: 1,
            preprocessweep: 1,
            probe: 1,
            probeinit: 100,
            probeint: 100,
            proberounds: 2,
            profile: 2,
            promote: 1,
            quiet: 0,
            randec: 1,
            randecfocused: 1,
            randecinit: 500,
            randecint: 500,
            randeclength: 10,
            randecstable: 0,
            reduce: 1,
            reducehigh: 900,
            reduceinit: 1000,
            reduceint: 1000,
            reducelow: 500,
            reluctant: 1,
            reluctantint: 1024,
            reluctantlim: 1_048_576,
            reorder: 2,
            reorderinit: 10_000,
            reorderint: 10_000,
            reordermaxsize: 100,
            rephase: 1,
            rephaseinit: 1000,
            rephaseint: 1000,
            restart: 1,
            restartint: RESTARTINT_DEFAULT,
            restartmargin: 10,
            restartreusetrail: 1,
            seed: 0,
            shrink: 3,
            simplify: 1,
            smallclauses: 100_000,
            stable: STABLE_DEFAULT,
            statistics: 0,
            substitute: 1,
            substituteeffort: 10,
            substituterounds: 2,
            subsumeclslim: 1000,
            subsumeocclim: 1000,
            sweep: 1,
            sweepclauses: 1024,
            sweepcomplete: 0,
            sweepdepth: 2,
            sweepeffort: 100,
            sweepfliprounds: 1,
            sweepmaxclauses: 32_768,
            sweepmaxdepth: 3,
            sweepmaxvars: 8192,
            sweeprand: 0,
            sweepvars: 256,
            target: TARGET_DEFAULT,
            tier1: 2,
            tier1relative: 500,
            tier2: 6,
            tier2relative: 900,
            transitive: 1,
            transitiveeffort: 20,
            transitivekeep: 1,
            tumble: 1,
            verbose: 0,
            vivify: 1,
            vivifyeffort: 100,
            vivifyfocusedtiers: 1,
            vivifyirr: 3,
            vivifysort: 1,
            vivifytier1: 3,
            vivifytier2: 3,
            vivifytier3: 1,
            walkeffort: 50,
            walkinitially: 0,
            warmup: 1,
        }
    }
}

/*------------------------------------------------------------------------*/
// Option values.

/// `1000 * value`, as a 64-bit number.
pub fn get1k_option(value: i32) -> (r: i64)
    ensures
        r == 1000 * value,
{
    1000i64 * value as i64
}

/// Resets every option to its default.
pub fn init_options(options: &mut Options)
    ensures
        forall|i: int| 0 <= i < NUM_OPTIONS ==> #[trigger] final(options).field(i) == option_spec(i).1,
{
    *options = Options::default();
}

/// The value of option `name`, or 0 for an unknown name.
pub fn options_get(options: &Options, name: &str) -> (r: i32)
    ensures
        r == (if is_option_name(name@) { options.field(option_index(name@)) } else { 0 }),
{
    match find_option(name) {
        Some(i) => options.value_at(i),
        None => 0,
    }
}

/// `value` raised to `low` and then cut down to `high`.
pub open spec fn clamp(value: i32, low: i32, high: i32) -> i32 {
    let raised = if value < low { low } else { value };
    if raised > high { high } else { raised }
}

/// Sets option `o` to `value` clamped to its range and returns the
/// previous value; setting the current value changes nothing.
pub fn options_set_opt(options: &mut Options, o: &OptionEntry, value: i32) -> (r: i32)
    requires
        is_table_entry(*o),
    ensures
        r == old(options).field(option_index(o.name@)),
        *final(options) == (if value == r {
            *old(options)
        } else {
            old(options).with_field(option_index(o.name@), clamp(value, o.low, o.high))
        }),
{
    proof {
        lemma_names_distinct();
        let i = choose|i: int| 0 <= i < NUM_OPTIONS && entry_is(*o, i);
        assert(option_name(i) == o.name@);
    }
    let i = match find_option(o.name) {
        Some(i) => i,
        None => {
            return 0;
        },
    };
    let res = options.value_at(i);
    if value == res {
        return res;
    }
    let mut v = value;
    if v < o.low {
        v = o.low;
    }
    if v > o.high {
        v = o.high;
    }
    options.set_at(i, v);
    res
}

/// Sets option `name` as `options_set_opt` does and returns the previous
/// value; an unknown name changes nothing and gives 0.
pub fn options_set(options: &mut Options, name: &str, value: i32) -> (r: i32)
    ensures
        !is_option_name(name@) ==> r == 0 && *final(options) == *old(options),
        is_option_name(name@) ==> {
            let i = option_index(name@);
            &&& r == old(options).field(i)
            &&& *final(options) == (if value == r {
                *old(options)
            } else {
                old(options).with_field(i, clamp(value, option_spec(i).2, option_spec(i).3))
            })
        },
{
    match options_has(name) {
        Some(o) => {
            proof {
                lemma_names_distinct();
            }
            options_set_opt(options, &o, value)
        },
        None => 0,
    }
}

/// Every default lies in its option's range.
pub proof fn lemma_ranges_valid()
    ensures
        forall|i: int| 0 <= i < NUM_OPTIONS ==> option_spec(i).2 <= #[trigger] option_spec(i).1 <= option_spec(i).3,
{
}

/// Reading an option right after setting it gives the value set.
pub proof fn lemma_field_with_field(options: Options, i: int, v: i32)
    requires
        0 <= i < NUM_OPTIONS,
    ensures
        options.with_field(i, v).field(i) == v,
{
}

/// Setting one option leaves every other option as it was.
#[verifier::rlimit(100)]
pub proof fn lemma_with_field_other(options: Options, i: int, j: int, v: i32)
    requires
        0 <= i < NUM_OPTIONS,
        0 <= j < NUM_OPTIONS,
        i != j,
    ensures
        options.with_field(i, v).field(j) == options.field(j),
{
}

/// Setting an option whose value lies in its range and reading it back
/// gives the value set, clamped to the range; the other options keep
/// their values.
pub proof fn lemma_set_then_get(options: Options, name: Seq<char>, value: i32, j: int)
    requires
        is_option_name(name),
        option_spec(option_index(name)).2 <= options.field(option_index(name)) <= option_spec(option_index(name)).3,
        0 <= j < NUM_OPTIONS,
    ensures
        ({
            let i = option_index(name);
            let set = if value == options.field(i) {
                options
            } else {
                options.with_field(i, clamp(value, option_spec(i).2, option_spec(i).3))
            };
            &&& set.field(i) == clamp(value, option_spec(i).2, option_spec(i).3)
            &&& j != i ==> set.field(j) == options.field(j)
        }),
{
    let i = option_index(name);
    lemma_field_with_field(options, i, clamp(value, option_spec(i).2, option_spec(i).3));
    if j != i {
        lemma_with_field_other(options, i, j, clamp(value, option_spec(i).2, option_spec(i).3));
    }
}

/*------------------------------------------------------------------------*/
// Parsing option values.

/// Byte `i` of `b`, or 0 beyond its end.
pub open spec fn at(b: Seq<u8>, i: int) -> u8 {
    if 0 <= i < b.len() { b[i] } else { 0 }
}

pub open spec fn is_digit(c: u8) -> bool {
    48 <= c <= 57
}

/// The first position from `i` on that does not hold a digit.
pub open spec fn digit_end(b: Seq<u8>, i: int) -> int
    decreases b.len() - i,
{
    if 0 <= i < b.len() && is_digit(b[i]) { digit_end(b, i + 1) } else { i }
}

/// The decimal number written in `b[from..to)`.
pub open spec fn digits_value(b: Seq<u8>, from: int, to: int) -> nat
    decreases to - from,
{
    if to <= from { 0 } else { digits_value(b, from, to - 1) * 10 + (b[to - 1] - 48) as nat }
}

/// `base` to the `e`.
pub open spec fn power(base: nat, e: nat) -> nat
    decreases e,
{
    if e == 0 { 1 } else { base * power(base, (e - 1) as nat) }
}

/// The magnitude limit, `2^31`.
pub open spec fn magnitude_limit() -> nat {
    0x8000_0000
}

/// Where the mantissa starts: after an optional minus sign.
pub open spec fn mantissa_start(b: Seq<u8>) -> int {
    if at(b, 0) == 45 { 1 } else { 0 }
}

/// The magnitude written by the suffix at `e` of a mantissa of value `m`:
/// nothing, `e<digit>` (any digits when `m` is zero) or `^<exponent>` (one
/// or two digits; any digits when the base is below 2).
pub open spec fn suffix_magnitude(b: Seq<u8>, e: int, m: nat) -> Option<nat> {
    let c = at(b, e);
    if c == 0 {
        Some(m)
    } else if c == 101 {
        let d = at(b, e + 1);
        if !is_digit(d) {
            None
        } else if m != 0 {
            if at(b, e + 2) != 0 {
                None
            } else {
                let v = m * power(10, (d - 48) as nat);
                if v > magnitude_limit() { None } else { Some(v) }
            }
        } else if at(b, digit_end(b, e + 2)) != 0 {
            None
        } else {
            Some(0)
        }
    } else if c == 94 {
        let d = at(b, e + 1);
        if !is_digit(d) {
            None
        } else {
            let x1 = (d - 48) as nat;
            let x: Option<nat> = if m < 2 {
                if at(b, digit_end(b, e + 2)) != 0 { None } else { Some(x1) }
            } else {
                let d2 = at(b, e + 2);
                if is_digit(d2) {
                    if at(b, e + 3) != 0 {
                        None
                    } else if x1 * 10 + (d2 - 48) == 0 {
                        None
                    } else {
                        Some((x1 * 10 + (d2 - 48)) as nat)
                    }
                } else if d2 != 0 {
                    None
                } else {
                    Some(x1)
                }
            };
            match x {
                None => None,
                Some(x) => if x != 0 {
                    let v = power(m, x);
                    if v > magnitude_limit() { None } else { Some(v) }
                } else if m != 0 {
                    Some(1)
                } else {
                    None
                },
            }
        }
    } else {
        None
    }
}

/// The value an option value string denotes, if it is valid: `true`,
/// `false`, or an optionally negative decimal mantissa without a leading
/// double zero, optionally followed by an exponent suffix, whose magnitude
/// fits (a positive value must stay below `2^31`).  A zero byte ends the
/// string.
pub open spec fn option_value(s: Seq<char>) -> Option<i32> {
    if s == "true"@ {
        Some(1)
    } else if s == "false"@ {
        Some(0)
    } else {
        let b = encode_utf8(s);
        let st = mantissa_start(b);
        let e = digit_end(b, st);
        let m = digits_value(b, st, e);
        if !is_digit(at(b, st)) {
            None
        } else if (e - st >= 2 && at(b, st) == 48 && at(b, st + 1) == 48) || m > magnitude_limit() {
            None
        } else {
            match suffix_magnitude(b, e, m) {
                None => None,
                Some(v) => if st == 0 && v == magnitude_limit() {
                    None
                } else {
                    Some((if st == 1 { -v } else { v as int }) as i32)
                },
            }
        }
    }
}

/// The value strings on which parsing divides by a zero base: `0^e` with
/// a first exponent digit of 2 or more and nothing but digits after it.
pub open spec fn value_divides_by_zero(s: Seq<char>) -> bool {
    let b = encode_utf8(s);
    let st = mantissa_start(b);
    let e = digit_end(b, st);
    &&& s != "true"@
    &&& s != "false"@
    &&& e == st + 1
    &&& at(b, st) == 48
    &&& at(b, e) == 94
    &&& is_digit(at(b, e + 1))
    &&& at(b, e + 1) >= 50
    &&& at(b, digit_end(b, e + 2)) == 0
}

/// The byte at `pos`, or 0 at and beyond the end.
fn peek_ch(b: &[u8], pos: usize) -> (r: u8)
    ensures
        r == at(b@, pos as int),
{
    if pos < b.len() {
        b[pos]
    } else {
        0
    }
}

/// Reads the byte at `pos` (0 at the end) and moves past it; positions
/// beyond the end all read as the end.
fn next_ch(b: &[u8], pos: &mut usize) -> (r: u8)
    requires
        *old(pos) <= b@.len(),
    ensures
        r == at(b@, *old(pos) as int),
        *final(pos) == (if *old(pos) < b@.len() { *old(pos) + 1 } else { *old(pos) as int }),
{
    let ch = peek_ch(b, *pos);
    if *pos < b.len() {
        *pos += 1;
    }
    ch
}

proof fn lemma_digit_end(b: Seq<u8>, i: int)
    requires
        0 <= i,
    ensures
        digit_end(b, i) >= i,
        i <= b.len() ==> digit_end(b, i) <= b.len(),
        !is_digit(at(b, digit_end(b, i))),
        forall|k: int| i <= k < digit_end(b, i) ==> is_digit(#[trigger] at(b, k)),
    decreases b.len() - i,
{
    if 0 <= i < b.len() && is_digit(b[i]) {
        lemma_digit_end(b, i + 1);
    }
}

proof fn lemma_digits_value_mono(b: Seq<u8>, from: int, x: int, y: int)
    requires
        from <= x <= y,
        forall|k: int| from <= k < y ==> is_digit(#[trigger] b[k]),
        y <= b.len(),
    ensures
        digits_value(b, from, x) <= digits_value(b, from, y),
    decreases y - x,
{
    if x < y {
        lemma_digits_value_mono(b, from, x, y - 1);
    }
}

proof fn lemma_digits_value_zero(b: Seq<u8>, from: int, to: int)
    requires
        from <= to <= b.len(),
        forall|k: int| from <= k < to ==> is_digit(#[trigger] b[k]),
        digits_value(b, from, to) == 0,
    ensures
        forall|k: int| from <= k < to ==> #[trigger] b[k] == 48,
    decreases to - from,
{
    if from < to {
        lemma_digits_value_zero(b, from, to - 1);
    }
}

proof fn lemma_power_mono(base: nat, x: nat, y: nat)
    requires
        base >= 1,
        x <= y,
    ensures
        power(base, x) <= power(base, y),
        power(base, x) >= 1,
    decreases y,
{
    lemma_power_pos(base, x);
    if y > x {
        lemma_power_mono(base, x, (y - 1) as nat);
        lemma_power_pos(base, (y - 1) as nat);
        assert(power(base, (y - 1) as nat) <= base * power(base, (y - 1) as nat)) by (nonlinear_arith)
            requires
                base >= 1,
        ;
    }
}

proof fn lemma_power_pos(base: nat, x: nat)
    requires
        base >= 1,
    ensures
        power(base, x) >= 1,
    decreases x,
{
    if x > 0 {
        lemma_power_pos(base, (x - 1) as nat);
        assert(base * power(base, (x - 1) as nat) >= 1) by (nonlinear_arith)
            requires
                base >= 1,
                power(base, (x - 1) as nat) >= 1,
        ;
    }
}

proof fn lemma_power_one(x: nat)
    ensures
        power(1, x) == 1,
    decreases x,
{
    if x > 0 {
        lemma_power_one((x - 1) as nat);
    }
}

/// Skips digits from the logical position `gi` and returns the first
/// other byte.
fn skip_digits(b: &[u8], pos: &mut usize, Ghost(gi): Ghost<int>) -> (r: u8)
    requires
        0 <= gi,
        *old(pos) as int == (if gi <= b@.len() { gi } else { b@.len() as int }),
    ensures
        r == at(b@, digit_end(b@, gi)),
        *final(pos) <= b@.len(),
{
    let mut ch = next_ch(b, pos);
    let ghost mut g = gi;
    proof {
        lemma_digit_end(b@, gi);
    }
    while 48 <= ch && ch <= 57
        invariant
            gi <= g,
            ch == at(b@, g),
            *pos as int == (if g + 1 <= b@.len() { g + 1 } else { b@.len() as int }),
            digit_end(b@, gi) == digit_end(b@, g),
        decreases b@.len() + 1 - g,
    {
        proof {
            assert(g < b@.len());
        }
        ch = next_ch(b, pos);
        proof {
            g = g + 1;
        }
    }
    ch
}

/// `res * 10^digit`, or `None` when a step exceeds the limit.
fn scale_by_ten(res: u32, digit: u32) -> (r: Option<u32>)
    requires
        1 <= res <= magnitude_limit(),
        digit <= 9,
    ensures
        (res as nat) * power(10, digit as nat) > magnitude_limit() ==> r is None,
        (res as nat) * power(10, digit as nat) <= magnitude_limit() ==> r == Some((res as nat * power(10, digit as nat)) as u32),
{
    let max: u32 = 0x8000_0000;
    let mut r = res;
    let mut k: u32 = 0;
    assert(power(10, 0) == 1);
    assert(res as nat * power(10, 0) == res);
    while k < digit
        invariant
            k <= digit <= 9,
            r as nat == res as nat * power(10, k as nat),
            r <= max,
            max == magnitude_limit(),
            res >= 1,
        decreases digit - k,
    {
        if max / 10 < r {
            proof {
                lemma_power_mono(10, (k + 1) as nat, digit as nat);
                assert(res as nat * power(10, (k + 1) as nat) == r * 10) by (nonlinear_arith)
                    requires
                        r as nat == res as nat * power(10, k as nat),
                        power(10, (k + 1) as nat) == 10 * power(10, k as nat),
                ;
                assert(res as nat * power(10, (k + 1) as nat) <= res as nat * power(10, digit as nat)) by (nonlinear_arith)
                    requires
                        power(10, (k + 1) as nat) <= power(10, digit as nat),
                ;
            }
            return None;
        }
        proof {
            assert(r * 10 == res as nat * power(10, (k + 1) as nat)) by (nonlinear_arith)
                requires
                    r as nat == res as nat * power(10, k as nat),
                    power(10, (k + 1) as nat) == 10 * power(10, k as nat),
            ;
        }
        r = r * 10;
        k += 1;
    }
    Some(r)
}

/// `base^exp` for `base >= 1` and `exp >= 1`, or `None` when a step
/// exceeds the limit.
fn raise(base: u32, exp: u32) -> (r: Option<u32>)
    requires
        1 <= base <= magnitude_limit(),
        1 <= exp,
    ensures
        power(base as nat, exp as nat) > magnitude_limit() ==> r is None,
        power(base as nat, exp as nat) <= magnitude_limit() ==> r == Some(power(base as nat, exp as nat) as u32),
{
    let max: u32 = 0x8000_0000;
    let mut r = base;
    let mut k: u32 = 1;
    proof {
        assert(power(base as nat, 0) == 1);
        assert(power(base as nat, 1) == base * power(base as nat, 0));
    }
    while k < exp
        invariant
            1 <= k <= exp,
            r as nat == power(base as nat, k as nat),
            r <= max,
            max == magnitude_limit(),
            base >= 1,
        decreases exp - k,
    {
        proof {
            assert(power(base as nat, (k + 1) as nat) == base * power(base as nat, k as nat));
            assert(r * base == base * r) by (nonlinear_arith);
        }
        if max / base < r {
            proof {
                lemma_power_mono(base as nat, (k + 1) as nat, exp as nat);
                assert(r * base > max) by (nonlinear_arith)
                    requires
                        max / base < r,
                        base >= 1,
                ;
            }
            return None;
        }
        proof {
            assert(r * base <= max) by (nonlinear_arith)
                requires
                    max / base >= r,
                    base >= 1,
            ;
        }
        r = r * base;
        k += 1;
    }
    Some(r)
}

/// Parses what follows a mantissa of value `m` ending at `e`: nothing, an
/// `e` exponent or a `^` exponent (see `suffix_magnitude`).
fn parse_suffix(b: &[u8], pos: usize, ch: u8, m: u32, Ghost(e): Ghost<int>) -> (r: Option<u32>)
    requires
        0 <= e <= b@.len(),
        ch == at(b@, e),
        pos as int == (if e + 1 <= b@.len() { e + 1 } else { b@.len() as int }),
        m <= magnitude_limit(),
        !(m == 0 && at(b@, e) == 94 && is_digit(at(b@, e + 1)) && at(b@, e + 1) >= 50
            && at(b@, digit_end(b@, e + 2)) == 0),
    ensures
        match r {
            Some(v) => suffix_magnitude(b@, e, m as nat) == Some(v as nat),
            None => suffix_magnitude(b@, e, m as nat) is None,
        },
{
    let mut pos = pos;
    let mut ch = ch;
    let mut res = m;
    if ch == 101 {
        ch = next_ch(b, &mut pos);
        if !(48 <= ch && ch <= 57) {
            return None;
        }
        if res != 0 {
            if peek_ch(b, pos) != 0 {
                return None;
            }
            let digit = (ch - 48) as u32;
            match scale_by_ten(res, digit) {
                Some(v) => {
                    res = v;
                },
                None => {
                    return None;
                },
            }
        } else {
            ch = skip_digits(b, &mut pos, Ghost(e + 2));
            if ch != 0 {
                return None;
            }
        }
    } else if ch == 94 {
        let base = res;
        ch = next_ch(b, &mut pos);
        if !(48 <= ch && ch <= 57) {
            return None;
        }
        let mut exp: u32 = (ch - 48) as u32;
        if base < 2 {
            ch = skip_digits(b, &mut pos, Ghost(e + 2));
            if ch != 0 {
                return None;
            }
        } else {
            ch = next_ch(b, &mut pos);
            if 48 <= ch && ch <= 57 {
                if peek_ch(b, pos) != 0 {
                    return None;
                }
                exp = exp * 10;
                let digit = (ch - 48) as u32;
                exp = exp + digit;
                if exp == 0 {
                    return None;
                }
            } else if ch != 0 {
                return None;
            }
        }
        if exp != 0 {
            if base == 0 {
                proof {
                    assert(exp == 1);
                    assert(power(0, 1) == 0 * power(0, 0));
                }
                res = 0;
            } else {
                match raise(base, exp) {
                    Some(v) => {
                        res = v;
                    },
                    None => {
                        return None;
                    },
                }
            }
        } else if base != 0 {
            res = 1;
        } else {
            return None;
        }
    } else if ch != 0 {
        return None;
    }
    Some(res)
}

/// Parses an option value (see `option_value`).
#[verifier::rlimit(60)]
pub fn parse_option_value(val_str: &str) -> (r: Option<i32>)
    requires
        !value_divides_by_zero(val_str@),
    ensures
        r == option_value(val_str@),
{
    if str_eq(val_str, "true") {
        return Some(1);
    }
    if str_eq(val_str, "false") {
        return Some(0);
    }
    let b = val_str.as_bytes();
    let ghost bs = b@;
    let max: u32 = 0x8000_0000;
    let mut pos: usize = 0;
    let mut negative = false;
    let mut ch = next_ch(b, &mut pos);
    if ch == 45 {
        negative = true;
        ch = next_ch(b, &mut pos);
    }
    let ghost st = mantissa_start(bs);
    let ghost e = digit_end(bs, st);
    proof {
        assert(st <= bs.len());
        lemma_digit_end(bs, st);
    }
    if !(48 <= ch && ch <= 57) {
        return None;
    }
    let mut res: u32 = (ch - 48) as u32;
    let ghost mut g: int = st + 1;
    proof {
        assert(digits_value(bs, st, st + 1) == digits_value(bs, st, st) * 10 + (bs[st] - 48) as nat);
    }
    loop
        invariant_except_break
            pos as int == (if g <= bs.len() { g } else { bs.len() as int }),
        invariant
            st < g <= e,
            e <= bs.len(),
            bs == encode_utf8(val_str@),
            val_str@ != "true"@ && val_str@ != "false"@,
            e == digit_end(bs, st),
            bs == b@,
            st == mantissa_start(bs),
            max == magnitude_limit(),
            negative == (st == 1),
            forall|k: int| st <= k < e ==> is_digit(#[trigger] at(bs, k)),
            !is_digit(at(bs, e)),
            res as nat == digits_value(bs, st, g),
            res <= max,
            !(g - st >= 2 && at(bs, st) == 48 && at(bs, st + 1) == 48),
            is_digit(at(bs, st)),
        ensures
            res as nat == digits_value(bs, st, e),
            res <= max,
            ch == at(bs, e),
            pos as int == (if e + 1 <= bs.len() { e + 1 } else { bs.len() as int }),
            !(e - st >= 2 && at(bs, st) == 48 && at(bs, st + 1) == 48),
        decreases e - g,
    {
        ch = next_ch(b, &mut pos);
        proof {
            if g < e {
                assert(is_digit(at(bs, g)));
            }
        }
        if !(48 <= ch && ch <= 57) {
            proof {
                assert(g == e);
                assert(ch == at(bs, e));
                assert(pos as int == (if e + 1 <= bs.len() { e + 1 } else { bs.len() as int }));
            }
            break;
        }
        proof {
            assert(g < e);
            assert(at(bs, g) == bs[g]);
            assert forall|k: int| st <= k < e implies is_digit(#[trigger] bs[k]) by {
                assert(at(bs, k) == bs[k]);
            }
            lemma_digits_value_mono(bs, st, g + 1, e);
            assert(digits_value(bs, st, g + 1) == digits_value(bs, st, g) * 10 + (bs[g] - 48) as nat);
        }
        if max / 10 < res {
            proof {
                assert(res as nat * 10 > magnitude_limit());
                assert(digits_value(bs, st, e) > magnitude_limit());
            }
            return None;
        }
        res = res * 10;
        let digit = (ch - 48) as u32;
        if max - digit < res {
            proof {
                assert(digits_value(bs, st, e) > magnitude_limit());
            }
            return None;
        }
        res = res + digit;
        if res == 0 {
            proof {
                assert forall|k: int| st <= k < g + 1 implies is_digit(#[trigger] bs[k]) by {
                    assert(at(bs, k) == bs[k]);
                }
                lemma_digits_value_zero(bs, st, g + 1);
                assert(bs[st] == 48 && bs[st + 1] == 48);
            }
            return None;
        }
        proof {
            if g == st + 1 {
                assert(digits_value(bs, st, st + 1) == digits_value(bs, st, st) * 10 + (bs[st] - 48) as nat);
                assert(at(bs, st) == bs[st] && at(bs, st + 1) == bs[st + 1]);
            }
            g = g + 1;
        }
    }
    proof {
        if res == 0 && at(bs, e) == 94 && is_digit(at(bs, e + 1)) && at(bs, e + 1) >= 50
            && at(bs, digit_end(bs, e + 2)) == 0 {
            assert forall|k: int| st <= k < e implies is_digit(#[trigger] bs[k]) by {
                assert(at(bs, k) == bs[k]);
            }
            lemma_digits_value_zero(bs, st, e);
            if e >= st + 2 {
                assert(at(bs, st) == bs[st] && at(bs, st + 1) == bs[st + 1]);
            }
            assert(e == st + 1);
            assert(at(bs, st) == bs[st]);
            assert(value_divides_by_zero(val_str@));
        }
    }
    let v = match parse_suffix(b, pos, ch, res, Ghost(e)) {
        Some(v) => v,
        None => {
            return None;
        },
    };
    res = v;
    if !negative && res == max {
        return None;
    }
    if negative {
        Some((0i64 - res as i64) as i32)
    } else {
        Some(res as i32)
    }
}

/*------------------------------------------------------------------------*/
// Parsing command line options.

/// What `parse_option_name` gives for `arg` and `name`: the value text of
/// `--<name>=<value>`, or `0` for `--no-<name>`.
pub open spec fn option_name_value(arg: Seq<char>, name: Seq<char>) -> Option<Seq<char>> {
    if arg.len() < 2 || arg[0] != '-' || arg[1] != '-' {
        None
    } else {
        let rest = arg.skip(2);
        if rest.len() >= 3 && rest.take(3) == seq!['n', 'o', '-'] {
            if rest.skip(3) == name { Some(seq!['0']) } else { None }
        } else if rest.len() > name.len() && rest.take(name.len() as int) == name && rest[name.len() as int] == '=' {
            Some(rest.skip(name.len() as int + 1))
        } else {
            None
        }
    }
}

/// Whether `s` starts with `p`.
fn starts_with(s: &str, p: &str) -> (r: bool)
    ensures
        r == (s@.len() >= p@.len() && s@.take(p@.len() as int) == p@),
{
    let n = s.unicode_len();
    let m = p.unicode_len();
    if n < m {
        return false;
    }
    let mut i: usize = 0;
    while i < m
        invariant
            n == s@.len(),
            m == p@.len(),
            m <= n,
            i <= m,
            forall|j: int| 0 <= j < i ==> s@[j] == p@[j],
        decreases m - i,
    {
        if s.get_char(i) != p.get_char(i) {
            proof {
                assert(s@.take(m as int)[i as int] != p@[i as int]);
            }
            return false;
        }
        i += 1;
    }
    assert(s@.take(m as int) =~= p@);
    true
}

/// The value text of `--<name>=<value>`, `0` for `--no-<name>`, else none.
pub fn parse_option_name<'a>(arg: &'a str, name: &str) -> (r: Option<&'a str>)
    ensures
        match r {
            Some(v) => option_name_value(arg@, name@) == Some(v@),
            None => option_name_value(arg@, name@) is None,
        },
{
    let n = arg.unicode_len();
    if n < 2 || arg.get_char(0) != '-' || arg.get_char(1) != '-' {
        return None;
    }
    let rest = arg.substring_char(2, n);
    proof {
        reveal_strlit("no-");
        reveal_strlit("0");
        assert("no-"@ =~= seq!['n', 'o', '-']);
        assert("0"@ =~= seq!['0']);
    }
    if starts_with(rest, "no-") {
        let tail = rest.substring_char(3, n - 2);
        if str_eq(tail, name) {
            return Some("0");
        }
        return None;
    }
    if !starts_with(rest, name) {
        return None;
    }
    let k = name.unicode_len();
    if k >= n - 2 || rest.get_char(k) != '=' {
        return None;
    }
    Some(rest.substring_char(k + 1, n - 2))
}

/// The first position of `c` in `s`, if any.
fn find_char(s: &str, c: char) -> (r: Option<usize>)
    ensures
        match r {
            Some(i) => i < s@.len() && s@[i as int] == c && forall|j: int| 0 <= j < i ==> s@[j] != c,
            None => forall|j: int| 0 <= j < s@.len() ==> s@[j] != c,
        },
{
    let n = s.unicode_len();
    let mut i: usize = 0;
    while i < n
        invariant
            n == s@.len(),
            i <= n,
            forall|j: int| 0 <= j < i ==> s@[j] != c,
        decreases n - i,
    {
        if s.get_char(i) == c {
            return Some(i);
        }
        i += 1;
    }
    None
}

/// The first position of `c` in `s`.
pub open spec fn first_index_of(s: Seq<char>, c: char) -> int {
    choose|i: int| 0 <= i < s.len() && s[i] == c && forall|j: int| 0 <= j < i ==> s[j] != c
}

/// What `options_parse_arg` gives for `arg`: the option name and value of
/// `--<name>=<value>` (a value within the option's range), `--no-<name>`
/// (value 0, for options that allow it) or `--<name>` (value 1, likewise).
pub open spec fn parsed_arg(arg: Seq<char>) -> Option<(Seq<char>, i32)> {
    if arg.len() < 2 || arg[0] != '-' || arg[1] != '-' {
        None
    } else {
        let rest = arg.skip(2);
        if rest.contains('=') {
            let eq = first_index_of(rest, '=');
            let name = rest.take(eq);
            if (encode_utf8(name).len() as usize) >= OPTIONS_MAX_NAME_BUFFER_SIZE || !is_option_name(name) {
                None
            } else {
                let i = option_index(name);
                match option_value(rest.skip(eq + 1)) {
                    None => None,
                    Some(v) => if v < option_spec(i).2 || v > option_spec(i).3 {
                        None
                    } else {
                        Some((name, v))
                    },
                }
            }
        } else if rest.len() >= 3 && rest.take(3) == seq!['n', 'o', '-'] {
            let name = rest.skip(3);
            if !is_option_name(name) || option_spec(option_index(name)).2 > 0 {
                None
            } else {
                Some((name, 0i32))
            }
        } else if !is_option_name(rest) || option_spec(option_index(rest)).3 < 1 {
            None
        } else {
            Some((rest, 1i32))
        }
    }
}

/// `--<name>=<value>` for option `i` gives the option's name and the value
/// exactly when the value lies in the option's range, its lowest and
/// highest value included, and is refused otherwise.
pub proof fn lemma_parsed_arg_range(i: int, val: Seq<char>, v: i32)
    requires
        0 <= i < NUM_OPTIONS,
        !option_name(i).contains('='),
        (encode_utf8(option_name(i)).len() as usize) < OPTIONS_MAX_NAME_BUFFER_SIZE,
        option_value(val) == Some(v),
    ensures
        parsed_arg(seq!['-', '-'] + option_name(i) + seq!['='] + val) == (if option_spec(i).2 <= v && v <= option_spec(i).3 {
            Some((option_name(i), v))
        } else {
            None
        }),
{
    let name = option_name(i);
    lemma_option_index(i);
    let arg = seq!['-', '-'] + name + seq!['='] + val;
    let rest = arg.skip(2);
    assert(rest =~= name + seq!['='] + val);
    let k = name.len() as int;
    assert(rest[k] == '=');
    assert(rest.contains('='));
    let eq = first_index_of(rest, '=');
    assert(forall|j: int| 0 <= j < k ==> rest[j] == name[j]);
    assert(eq == k) by {
        if eq < k {
            assert(rest[eq] == name[eq]);
        } else if eq > k {
            assert(rest[k] != '=');
        }
    }
    assert(rest.take(eq) =~= name);
    assert(rest.skip(eq + 1) =~= val);
}

/// `--no-<name>` sets option `i` to 0 exactly when 0 is not below its
/// lowest value, and `--<name>` sets it to 1 exactly when 1 is not above
/// its highest value.
pub proof fn lemma_parsed_arg_flags(i: int)
    requires
        0 <= i < NUM_OPTIONS,
        !option_name(i).contains('='),
    ensures
        parsed_arg(seq!['-', '-', 'n', 'o', '-'] + option_name(i)) == (if option_spec(i).2 <= 0 {
            Some((option_name(i), 0i32))
        } else {
            None
        }),
        option_name(i).len() < 3 || option_name(i).take(3) != seq!['n', 'o', '-'] ==> parsed_arg(seq!['-', '-']
            + option_name(i)) == (if option_spec(i).3 >= 1 {
            Some((option_name(i), 1i32))
        } else {
            None
        }),
{
    let name = option_name(i);
    lemma_option_index(i);
    let arg = seq!['-', '-', 'n', 'o', '-'] + name;
    let rest = arg.skip(2);
    assert(rest =~= seq!['n', 'o', '-'] + name);
    assert(!rest.contains('=')) by {
        if rest.contains('=') {
            let j = choose|j: int| 0 <= j < rest.len() && rest[j] == '=';
            if j >= 3 {
                assert(name[j - 3] == '=');
            }
        }
    }
    assert(rest.take(3) =~= seq!['n', 'o', '-']);
    assert(rest.skip(3) =~= name);
    let arg2 = seq!['-', '-'] + name;
    assert(arg2.skip(2) =~= name);
}

/// The arguments on which `options_parse_arg` would parse a value that
/// divides by a zero base.
pub open spec fn arg_divides_by_zero(arg: Seq<char>) -> bool {
    let rest = arg.skip(2);
    let eq = first_index_of(rest, '=');
    let name = rest.take(eq);
    &&& arg.len() >= 2 && arg[0] == '-' && arg[1] == '-'
    &&& rest.contains('=')
    &&& (encode_utf8(name).len() as usize) < OPTIONS_MAX_NAME_BUFFER_SIZE
    &&& is_option_name(name)
    &&& value_divides_by_zero(rest.skip(eq + 1))
}

/// Whether parsing `val_str` as a value would divide by a zero base.
pub fn value_would_divide_by_zero(val_str: &str) -> (r: bool)
    ensures
        r == value_divides_by_zero(val_str@),
{
    if str_eq(val_str, "true") || str_eq(val_str, "false") {
        return false;
    }
    let b = val_str.as_bytes();
    let ghost bs = b@;
    let mut pos: usize = 0;
    let mut ch = next_ch(b, &mut pos);
    if ch == 45 {
        ch = next_ch(b, &mut pos);
    }
    let ghost st = mantissa_start(bs);
    proof {
        lemma_digit_end(bs, st);
    }
    if ch != 48 {
        return false;
    }
    let c1 = next_ch(b, &mut pos);
    if c1 != 94 {
        proof {
            if is_digit(at(bs, st + 1)) {
                lemma_digit_end(bs, st + 1);
                assert(digit_end(bs, st) == digit_end(bs, st + 1));
            }
        }
        return false;
    }
    proof {
        assert(digit_end(bs, st) == digit_end(bs, st + 1));
        assert(digit_end(bs, st + 1) == st + 1);
    }
    let c2 = next_ch(b, &mut pos);
    if !(50 <= c2 && c2 <= 57) {
        return false;
    }
    let c3 = skip_digits(b, &mut pos, Ghost(st + 3));
    c3 == 0
}

/// Whether `options_parse_arg` would divide by a zero base parsing `arg`.
pub fn arg_would_divide_by_zero(arg: &str) -> (r: bool)
    ensures
        r == arg_divides_by_zero(arg@),
{
    let n = arg.unicode_len();
    if n < 2 || arg.get_char(0) != '-' || arg.get_char(1) != '-' {
        return false;
    }
    let rest = arg.substring_char(2, n);
    proof {
        assert(rest@ =~= arg@.skip(2));
    }
    match find_char(rest, '=') {
        Some(eq) => {
            proof {
                assert(rest@.contains('=')) by {
                    assert(rest@[eq as int] == '=');
                }
                let f = first_index_of(rest@, '=');
                assert(0 <= f < rest@.len() && rest@[f] == '=' && forall|j: int| 0 <= j < f ==> rest@[j] != '=');
                if f < eq {
                    assert(rest@[f] != '=');
                }
                if f > eq {
                    assert(rest@[eq as int] != '=');
                }
                assert(f == eq);
            }
            let name = rest.substring_char(0, eq);
            proof {
                assert(name@ =~= rest@.take(eq as int));
            }
            if name.len() >= OPTIONS_MAX_NAME_BUFFER_SIZE {
                return false;
            }
            if options_has(name).is_none() {
                return false;
            }
            let value_str = rest.substring_char(eq + 1, n - 2);
            proof {
                assert(value_str@ =~= rest@.skip(eq + 1));
            }
            value_would_divide_by_zero(value_str)
        },
        None => {
            proof {
                if rest@.contains('=') {
                    let j = choose|j: int| 0 <= j < rest@.len() && rest@[j] == '=';
                    assert(rest@[j] != '=');
                }
            }
            false
        },
    }
}

/// Validates `--<name>`, `--no-<name>` and `--<name>=<value>` against the
/// table (see `parsed_arg`) and returns the name and value.
pub fn options_parse_arg(arg: &str) -> (r: Option<(&str, i32)>)
    requires
        !arg_divides_by_zero(arg@),
    ensures
        match r {
            Some((name, v)) => parsed_arg(arg@) == Some((name@, v)),
            None => parsed_arg(arg@) is None,
        },
{
    let n = arg.unicode_len();
    if n < 2 || arg.get_char(0) != '-' || arg.get_char(1) != '-' {
        return None;
    }
    let rest = arg.substring_char(2, n);
    proof {
        reveal_strlit("no-");
        assert("no-"@ =~= seq!['n', 'o', '-']);
    }
    match find_char(rest, '=') {
        Some(eq) => {
            proof {
                assert(rest@.contains('=')) by {
                    assert(rest@[eq as int] == '=');
                }
                assert(0 <= eq < rest@.len() && rest@[eq as int] == '='
                    && forall|j: int| 0 <= j < eq ==> rest@[j] != '=');
                let f = first_index_of(rest@, '=');
                assert(0 <= f < rest@.len() && rest@[f] == '=' && forall|j: int| 0 <= j < f ==> rest@[j] != '=');
                if f < eq {
                    assert(rest@[f] != '=');
                }
                if f > eq {
                    assert(rest@[eq as int] != '=');
                }
                assert(f == eq);
            }
            let name = rest.substring_char(0, eq);
            proof {
                assert(rest@ =~= arg@.skip(2));
                assert(name@ =~= rest@.take(eq as int));
            }
            if name.len() >= OPTIONS_MAX_NAME_BUFFER_SIZE {
                return None;
            }
            let o = match options_has(name) {
                Some(o) => o,
                None => {
                    return None;
                },
            };
            let value_str = rest.substring_char(eq + 1, n - 2);
            proof {
                assert(value_str@ =~= rest@.skip(eq + 1));
                assert(arg@.skip(2).take(first_index_of(arg@.skip(2), '=')) == name@);
                assert(!value_divides_by_zero(value_str@));
            }
            let value = match parse_option_value(value_str) {
                Some(v) => v,
                None => {
                    return None;
                },
            };
            if value < o.low || value > o.high {
                return None;
            }
            Some((name, value))
        },
        None => {
            proof {
                if rest@.contains('=') {
                    let j = choose|j: int| 0 <= j < rest@.len() && rest@[j] == '=';
                    assert(rest@[j] != '=');
                }
            }
            proof {
                assert(rest@ =~= arg@.skip(2));
            }
            if starts_with(rest, "no-") {
                let name = rest.substring_char(3, n - 2);
                proof {
                    assert(name@ =~= rest@.skip(3));
                }
                let o = match options_has(name) {
                    Some(o) => o,
                    None => {
                        return None;
                    },
                };
                if o.low > 0 {
                    return None;
                }
                Some((name, 0))
            } else {
                let o = match options_has(rest) {
                    Some(o) => o,
                    None => {
                        return None;
                    },
                };
                if o.high < 1 {
                    return None;
                }
                Some((rest, 1))
            }
        },
    }
}

/*------------------------------------------------------------------------*/
// Printing option values and ranges.

/// A count as `format_count` writes it.
pub fn format_count(w: u64) -> (r: String)
    ensures
        r@ == count_text(w as nat),
{
    format_count_str(w)
}

/// An option value as `format_value` writes it.
pub fn format_value(boolean: bool, value: i32) -> (r: String)
    ensures
        r@ == value_text(boolean, value),
{
    format_value_str(boolean, value)
}

/// A range limit: `.` for the extreme values, else the value.
pub fn format_option_limit(value: i32) -> (r: String)
    ensures
        r@ == (if value == i32::MIN || value == i32::MAX { seq!['.'] } else { value_text(false, value) }),
{
    if value == i32::MIN || value == i32::MAX {
        let mut s = String::new();
        push_char(&mut s, '.');
        s
    } else {
        format_value(false, value)
    }
}

/// The argument column of the usage line of an option:
/// `--<name>=<bool>` for a Boolean option, `--<name>=<low>..<high>`
/// otherwise.
pub fn option_usage_argument(o: &OptionEntry) -> (r: String)
    ensures
        r@ == "--"@ + o.name@ + "="@ + (if o.low == 0 && o.high == 1 {
            "<bool>"@
        } else {
            (if o.low == i32::MIN || o.low == i32::MAX { seq!['.'] } else { value_text(false, o.low) }) + ".."@
                + (if o.high == i32::MIN || o.high == i32::MAX { seq!['.'] } else { value_text(false, o.high) })
        }),
{
    let mut s = String::new();
    push_str(&mut s, "--");
    push_str(&mut s, o.name);
    push_str(&mut s, "=");
    if o.low == 0 && o.high == 1 {
        push_str(&mut s, "<bool>");
    } else {
        let low = format_option_limit(o.low);
        push_str(&mut s, low.as_str());
        push_str(&mut s, "..");
        let high = format_option_limit(o.high);
        push_str(&mut s, high.as_str());
    }
    proof {
        assert(s@ =~= "--"@ + o.name@ + "="@ + (if o.low == 0 && o.high == 1 {
            "<bool>"@
        } else {
            (if o.low == i32::MIN || o.low == i32::MAX { seq!['.'] } else { value_text(false, o.low) }) + ".."@
                + (if o.high == i32::MIN || o.high == i32::MAX { seq!['.'] } else { value_text(false, o.high) })
        }));
    }
    s
}

/// Options left out of the embedded option list.
pub fn ignore_embedded_option_for_fuzzing(name: &str) -> (r: bool)
    ensures
        r == (name@ == "quiet"@),
{
    str_eq(name, "quiet")
}

/// Options left out of the option range list.
pub fn ignore_range_option_for_fuzzing(name: &str) -> (r: bool)
    ensures
        r == (name@ == "quiet"@ || name@ == "reduce"@ || name@ == "reluctant"@ || name@ == "rephase"@
            || name@ == "restart"@),
{
    if str_eq(name, "quiet") {
        return true;
    }
    if str_eq(name, "reduce") {
        return true;
    }
    if str_eq(name, "reluctant") {
        return true;
    }
    if str_eq(name, "rephase") {
        return true;
    }
    if str_eq(name, "restart") {
        return true;
    }
    false
}

} // verus!
