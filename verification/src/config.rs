//! Benchmark configuration: the shared command-line contract of every method,
//! its validation, and the argument list a parent hands to its worker.
use vstd::prelude::*;
use vstd::string::*;

use crate::text::{
    decimal, format_usize, lemma_parse_format_round_trip, parse_usize, parse_usize_spec, str_eq,
};

verus! {

broadcast use vstd::string::group_string_axioms;

#[derive(Clone, Copy, Debug, PartialEq, Eq, Structural)]
pub enum OutputFormat {
    Text,
    Json,
}

#[derive(Clone, Copy, Debug, PartialEq, Eq, Structural)]
pub enum ProcessRole {
    Parent,
    Child,
}

#[derive(Clone, Debug, PartialEq, Eq)]
pub struct BenchmarkConfig {
    pub message_count: usize,
    pub message_size: usize,
    pub warmup_count: usize,
    pub trials: usize,
    pub output_format: OutputFormat,
    pub role: ProcessRole,
    pub validation: String,
    pub measurement: String,
    pub timeout_seconds: usize,
    pub workload: String,
    pub queue_depth: usize,
    pub ring_capacity: usize,
}

/// The mathematical content of a `BenchmarkConfig`: its strings as character sequences.
pub struct ConfigModel {
    pub message_count: usize,
    pub message_size: usize,
    pub warmup_count: usize,
    pub trials: usize,
    pub output_format: OutputFormat,
    pub role: ProcessRole,
    pub validation: Seq<char>,
    pub measurement: Seq<char>,
    pub timeout_seconds: usize,
    pub workload: Seq<char>,
    pub queue_depth: usize,
    pub ring_capacity: usize,
}

impl View for BenchmarkConfig {
    type V = ConfigModel;

    open spec fn view(&self) -> ConfigModel {
        ConfigModel {
            message_count: self.message_count,
            message_size: self.message_size,
            warmup_count: self.warmup_count,
            trials: self.trials,
            output_format: self.output_format,
            role: self.role,
            validation: self.validation@,
            measurement: self.measurement@,
            timeout_seconds: self.timeout_seconds,
            workload: self.workload@,
            queue_depth: self.queue_depth,
            ring_capacity: self.ring_capacity,
        }
    }
}

/// Defaults: 1000 round trips of 1000 payload bytes, 100 warmups, 3 trials, text output,
/// parent role, full validation, batch measurement, 120 s deadline, round-trip workload,
/// queue depth 1, ring capacity 64.
pub open spec fn default_config() -> ConfigModel {
    ConfigModel {
        message_count: 1000,
        message_size: 1000,
        warmup_count: 100,
        trials: 3,
        output_format: OutputFormat::Text,
        role: ProcessRole::Parent,
        validation: "full"@,
        measurement: "batch"@,
        timeout_seconds: 120,
        workload: "round-trip"@,
        queue_depth: 1,
        ring_capacity: 64,
    }
}

impl Default for BenchmarkConfig {
    fn default() -> (config: Self)
        ensures
            config@ == default_config(),
    {
        BenchmarkConfig {
            message_count: 1000,
            message_size: 1000,
            warmup_count: 100,
            trials: 3,
            output_format: OutputFormat::Text,
            role: ProcessRole::Parent,
            validation: String::from_str("full"),
            measurement: String::from_str("batch"),
            timeout_seconds: 120,
            workload: String::from_str("round-trip"),
            queue_depth: 1,
            ring_capacity: 64,
        }
    }
}

/// Option whose value is one word of a fixed set.
#[derive(Clone, Copy, PartialEq, Eq, Structural)]
pub enum ChoiceField {
    Validation,
    Measurement,
    Workload,
}

/// Option whose value is an unsigned decimal count.
#[derive(Clone, Copy, PartialEq, Eq, Structural)]
pub enum NumericField {
    Timeout,
    QueueDepth,
    RingCapacity,
    MessageCount,
    MessageSize,
    WarmupCount,
    Trials,
}

/// What one command-line word asks for.
#[derive(Clone, Copy, PartialEq, Eq, Structural)]
pub enum FlagKind {
    Choice(ChoiceField),
    Numeric(NumericField),
    Format,
    Role,
    Help,
    Unknown,
}

pub open spec fn flag_kind(flag: Seq<char>) -> FlagKind {
    if flag == "--validation"@ {
        FlagKind::Choice(ChoiceField::Validation)
    } else if flag == "--measurement"@ {
        FlagKind::Choice(ChoiceField::Measurement)
    } else if flag == "--workload"@ {
        FlagKind::Choice(ChoiceField::Workload)
    } else if flag == "--timeout-seconds"@ {
        FlagKind::Numeric(NumericField::Timeout)
    } else if flag == "--queue-depth"@ {
        FlagKind::Numeric(NumericField::QueueDepth)
    } else if flag == "--ring-capacity"@ {
        FlagKind::Numeric(NumericField::RingCapacity)
    } else if flag == "-c"@ || flag == "--message-count"@ {
        FlagKind::Numeric(NumericField::MessageCount)
    } else if flag == "-s"@ || flag == "--message-size"@ {
        FlagKind::Numeric(NumericField::MessageSize)
    } else if flag == "-w"@ || flag == "--warmup-count"@ {
        FlagKind::Numeric(NumericField::WarmupCount)
    } else if flag == "-t"@ || flag == "--trials"@ {
        FlagKind::Numeric(NumericField::Trials)
    } else if flag == "--format"@ {
        FlagKind::Format
    } else if flag == "--role"@ {
        FlagKind::Role
    } else if flag == "--help"@ || flag == "-h"@ {
        FlagKind::Help
    } else {
        FlagKind::Unknown
    }
}

/// The words each choice option accepts.
pub open spec fn choice_allowed(field: ChoiceField, value: Seq<char>) -> bool {
    match field {
        ChoiceField::Workload => value == "round-trip"@ || value == "streaming"@ || value
            == "windowed"@,
        ChoiceField::Validation => value == "full"@ || value == "sampled"@,
        ChoiceField::Measurement => value == "batch"@ || value == "latency"@,
    }
}

pub open spec fn set_choice(cfg: ConfigModel, field: ChoiceField, value: Seq<char>) -> ConfigModel {
    match field {
        ChoiceField::Validation => ConfigModel { validation: value, ..cfg },
        ChoiceField::Measurement => ConfigModel { measurement: value, ..cfg },
        ChoiceField::Workload => ConfigModel { workload: value, ..cfg },
    }
}

/// The word an error message uses for a numeric option.
pub open spec fn numeric_label(field: NumericField) -> Seq<char> {
    match field {
        NumericField::Timeout => "timeout"@,
        NumericField::QueueDepth => "queue depth"@,
        NumericField::RingCapacity => "ring capacity"@,
        NumericField::MessageCount => "message count"@,
        NumericField::MessageSize => "message size"@,
        NumericField::WarmupCount => "warmup count"@,
        NumericField::Trials => "trials"@,
    }
}

pub open spec fn set_numeric(cfg: ConfigModel, field: NumericField, value: usize) -> ConfigModel {
    match field {
        NumericField::Timeout => ConfigModel { timeout_seconds: value, ..cfg },
        NumericField::QueueDepth => ConfigModel { queue_depth: value, ..cfg },
        NumericField::RingCapacity => ConfigModel { ring_capacity: value, ..cfg },
        NumericField::MessageCount => ConfigModel { message_count: value, ..cfg },
        NumericField::MessageSize => ConfigModel { message_size: value, ..cfg },
        NumericField::WarmupCount => ConfigModel { warmup_count: value, ..cfg },
        NumericField::Trials => ConfigModel { trials: value, ..cfg },
    }
}

/// Everything of the usage text after the program's name.
pub open spec fn usage_options_text() -> Seq<char> {
    " [options]\n\nOptions:\n  -c, --message-count <N>  Number of measured round trips (default: 1000)\n  -s, --message-size <N>   Payload size in bytes (default: 1000)\n  -w, --warmup-count <N>   Warmup iterations before timing (default: 100)\n  -t, --trials <N>         Number of benchmark trials (default: 3)\n      --format <FORMAT>    Output format: text | json (default: text)\n      --role <ROLE>        Internal process role: parent | child\n      --validation <MODE>  full (default) | sampled (every 1024, plus preflight/final)\n      --measurement <MODE> batch (default) | latency (every operation)\n      --timeout-seconds <N> Process-tree deadline (default: 120)\n      --workload <MODE>    round-trip | streaming | windowed (rings; IOCP windowed)\n      --queue-depth <N>    Maximum outstanding requests, 1..256\n      --ring-capacity <N>  Power-of-two slots per direction, 1..256"@
}

/// The usage text of the program called `program`.
pub open spec fn usage_spec(program: Seq<char>) -> Seq<char> {
    "Usage: "@ + program + usage_options_text()
}

pub open spec fn missing_value_message(flag: Seq<char>) -> Seq<char> {
    "missing value for "@ + flag
}

pub open spec fn invalid_choice_message(flag: Seq<char>, value: Seq<char>) -> Seq<char> {
    "invalid value `"@ + value + "` for "@ + flag
}

pub open spec fn invalid_number_message(field: NumericField, value: Seq<char>) -> Seq<char> {
    "invalid "@ + numeric_label(field) + " `"@ + value + "`"@
}

pub open spec fn invalid_format_message(value: Seq<char>) -> Seq<char> {
    "invalid output format `"@ + value + "`; expected `text` or `json`"@
}

pub open spec fn invalid_role_message(value: Seq<char>) -> Seq<char> {
    "invalid process role `"@ + value + "`; expected `parent` or `child`"@
}

pub open spec fn unrecognized_message(program: Seq<char>, arg: Seq<char>) -> Seq<char> {
    "unrecognized argument `"@ + arg + "`\n\n"@ + usage_spec(program)
}

/// Reads the option words from `i` on into `cfg`, left to right; the first offending
/// word decides the error.
pub open spec fn parse_from(
    program: Seq<char>,
    args: Seq<Seq<char>>,
    i: nat,
    cfg: ConfigModel,
) -> Result<ConfigModel, Seq<char>>
    decreases args.len() - i,
{
    if i >= args.len() {
        Ok(cfg)
    } else {
        let current = args[i as int];
        match flag_kind(current) {
            FlagKind::Help => Err(usage_spec(program)),
            FlagKind::Unknown => Err(unrecognized_message(program, current)),
            kind => {
                if i + 1 >= args.len() {
                    Err(missing_value_message(current))
                } else {
                    let value = args[i + 1 as int];
                    match kind {
                        FlagKind::Choice(field) => {
                            if choice_allowed(field, value) {
                                parse_from(program, args, i + 2, set_choice(cfg, field, value))
                            } else {
                                Err(invalid_choice_message(current, value))
                            }
                        },
                        FlagKind::Numeric(field) => {
                            match parse_usize_spec(value) {
                                Some(n) => parse_from(
                                    program,
                                    args,
                                    i + 2,
                                    set_numeric(cfg, field, n),
                                ),
                                None => Err(invalid_number_message(field, value)),
                            }
                        },
                        FlagKind::Format => {
                            if value == "text"@ {
                                parse_from(
                                    program,
                                    args,
                                    i + 2,
                                    ConfigModel { output_format: OutputFormat::Text, ..cfg },
                                )
                            } else if value == "json"@ {
                                parse_from(
                                    program,
                                    args,
                                    i + 2,
                                    ConfigModel { output_format: OutputFormat::Json, ..cfg },
                                )
                            } else {
                                Err(invalid_format_message(value))
                            }
                        },
                        _ => {
                            if value == "parent"@ {
                                parse_from(
                                    program,
                                    args,
                                    i + 2,
                                    ConfigModel { role: ProcessRole::Parent, ..cfg },
                                )
                            } else if value == "child"@ {
                                parse_from(
                                    program,
                                    args,
                                    i + 2,
                                    ConfigModel { role: ProcessRole::Child, ..cfg },
                                )
                            } else {
                                Err(invalid_role_message(value))
                            }
                        },
                    }
                }
            },
        }
    }
}

pub open spec fn ceil_div(a: nat, b: nat) -> nat
    recommends
        b > 0,
{
    if a % b == 0 {
        a / b
    } else {
        a / b + 1
    }
}

/// Operations per timed batch: ceil(count / 100), kept within 1..=100.
pub open spec fn batch_size_spec(message_count: nat) -> nat {
    let q = ceil_div(message_count, 100);
    if q < 1 {
        1
    } else if q > 100 {
        100
    } else {
        q
    }
}

pub open spec fn is_power_of_two_spec(n: nat) -> bool
    decreases n,
{
    if n == 1 {
        true
    } else if n < 2 || n % 2 != 0 {
        false
    } else {
        is_power_of_two_spec(n / 2)
    }
}

/// Samples a trial retains: one per operation in latency mode, else one per batch.
pub open spec fn retained_per_trial(cfg: ConfigModel) -> nat {
    if cfg.measurement == "latency"@ {
        cfg.message_count as nat
    } else {
        ceil_div(cfg.message_count as nat, batch_size_spec(cfg.message_count as nat))
    }
}

pub open spec fn total_operations(cfg: ConfigModel) -> int {
    cfg.message_count * cfg.trials + cfg.warmup_count
}

/// The checks that follow reading the options, in order; the first failing one decides.
pub open spec fn validate_spec(cfg: ConfigModel) -> Result<ConfigModel, Seq<char>> {
    if cfg.message_size == 0 || cfg.message_size > 1048576 {
        Err("message size must be between 1 and 1048576 payload bytes"@)
    } else if cfg.timeout_seconds == 0 || cfg.timeout_seconds > 86400 {
        Err("timeout must be between 1 and 86400 seconds"@)
    } else if cfg.queue_depth == 0 || cfg.queue_depth > 256 || !is_power_of_two_spec(
        cfg.ring_capacity as nat,
    ) || cfg.ring_capacity > 256 {
        Err("queue depth must be 1..256; ring capacity must be a power of two in 1..256"@)
    } else if cfg.workload == "round-trip"@ && cfg.queue_depth != 1 {
        Err("round-trip workload requires queue depth one"@)
    } else if cfg.workload != "round-trip"@ && cfg.validation != "full"@ {
        Err("throughput workloads require full delivery validation"@)
    } else if cfg.message_count * cfg.trials > usize::MAX || total_operations(cfg) > 1_000_000_000 {
        Err("total operation count exceeds 1000000000"@)
    } else if cfg.message_count == 0 {
        Err("message count must be greater than zero"@)
    } else if retained_per_trial(cfg) * cfg.trials > 1_000_000 {
        Err("retained measurement samples exceed 1000000; reduce count/trials or use batches"@)
    } else if cfg.trials == 0 {
        Err("trials must be greater than zero"@)
    } else {
        Ok(cfg)
    }
}

/// What reading `args` (the program's arguments without its name) gives.
pub open spec fn from_args_spec(program: Seq<char>, args: Seq<Seq<char>>) -> Result<
    ConfigModel,
    Seq<char>,
> {
    match parse_from(program, args, 0, default_config()) {
        Ok(cfg) => validate_spec(cfg),
        Err(message) => Err(message),
    }
}

pub open spec fn views_of(args: Seq<String>) -> Seq<Seq<char>> {
    args.map_values(|s: String| s@)
}

/// The argument words that reproduce `cfg` with the given role.
pub open spec fn args_for_role_spec(cfg: ConfigModel, role: ProcessRole) -> Seq<Seq<char>> {
    seq![
        "--workload"@,
        cfg.workload,
        "--queue-depth"@,
        decimal(cfg.queue_depth as nat),
        "--ring-capacity"@,
        decimal(cfg.ring_capacity as nat),
        "--validation"@,
        cfg.validation,
        "--measurement"@,
        cfg.measurement,
        "--timeout-seconds"@,
        decimal(cfg.timeout_seconds as nat),
        "--message-count"@,
        decimal(cfg.message_count as nat),
        "--message-size"@,
        decimal(cfg.message_size as nat),
        "--warmup-count"@,
        decimal(cfg.warmup_count as nat),
        "--trials"@,
        decimal(cfg.trials as nat),
        "--format"@,
        match cfg.output_format {
            OutputFormat::Text => "text"@,
            OutputFormat::Json => "json"@,
        },
        "--role"@,
        match role {
            ProcessRole::Parent => "parent"@,
            ProcessRole::Child => "child"@,
        },
    ]
}

/// Operations per timed batch for a trial of `message_count` round trips.
pub fn measurement_batch_size(message_count: usize) -> (size: usize)
    ensures
        size == batch_size_spec(message_count as nat),
        1 <= size <= 100,
{
    let q = if message_count % 100 == 0 {
        message_count / 100
    } else {
        message_count / 100 + 1
    };
    if q < 1 {
        1
    } else if q > 100 {
        100
    } else {
        q
    }
}

fn is_power_of_two(n: usize) -> (r: bool)
    ensures
        r == is_power_of_two_spec(n as nat),
{
    if n == 0 {
        return false;
    }
    let mut m = n;
    while m > 1 && m % 2 == 0
        invariant
            m >= 1,
            is_power_of_two_spec(n as nat) == is_power_of_two_spec(m as nat),
        decreases m,
    {
        m = m / 2;
    }
    m == 1
}

fn classify_flag(flag: &str) -> (kind: FlagKind)
    ensures
        kind == flag_kind(flag@),
{
    if str_eq(flag, "--validation") {
        FlagKind::Choice(ChoiceField::Validation)
    } else if str_eq(flag, "--measurement") {
        FlagKind::Choice(ChoiceField::Measurement)
    } else if str_eq(flag, "--workload") {
        FlagKind::Choice(ChoiceField::Workload)
    } else if str_eq(flag, "--timeout-seconds") {
        FlagKind::Numeric(NumericField::Timeout)
    } else if str_eq(flag, "--queue-depth") {
        FlagKind::Numeric(NumericField::QueueDepth)
    } else if str_eq(flag, "--ring-capacity") {
        FlagKind::Numeric(NumericField::RingCapacity)
    } else if str_eq(flag, "-c") || str_eq(flag, "--message-count") {
        FlagKind::Numeric(NumericField::MessageCount)
    } else if str_eq(flag, "-s") || str_eq(flag, "--message-size") {
        FlagKind::Numeric(NumericField::MessageSize)
    } else if str_eq(flag, "-w") || str_eq(flag, "--warmup-count") {
        FlagKind::Numeric(NumericField::WarmupCount)
    } else if str_eq(flag, "-t") || str_eq(flag, "--trials") {
        FlagKind::Numeric(NumericField::Trials)
    } else if str_eq(flag, "--format") {
        FlagKind::Format
    } else if str_eq(flag, "--role") {
        FlagKind::Role
    } else if str_eq(flag, "--help") || str_eq(flag, "-h") {
        FlagKind::Help
    } else {
        FlagKind::Unknown
    }
}

fn choice_is_allowed(field: ChoiceField, value: &str) -> (allowed: bool)
    ensures
        allowed == choice_allowed(field, value@),
{
    match field {
        ChoiceField::Workload => str_eq(value, "round-trip") || str_eq(value, "streaming")
            || str_eq(value, "windowed"),
        ChoiceField::Validation => str_eq(value, "full") || str_eq(value, "sampled"),
        ChoiceField::Measurement => str_eq(value, "batch") || str_eq(value, "latency"),
    }
}

fn label_text(field: NumericField) -> (label: &'static str)
    ensures
        label@ == numeric_label(field),
{
    match field {
        NumericField::Timeout => "timeout",
        NumericField::QueueDepth => "queue depth",
        NumericField::RingCapacity => "ring capacity",
        NumericField::MessageCount => "message count",
        NumericField::MessageSize => "message size",
        NumericField::WarmupCount => "warmup count",
        NumericField::Trials => "trials",
    }
}

/// Concatenates three pieces of text.
fn join3(a: &str, b: &str, c: &str) -> (text: String)
    ensures
        text@ == a@ + b@ + c@,
{
    let mut text = String::from_str(a);
    text.append(b);
    text.append(c);
    text
}

/// `s` starts with `prefix`.
pub open spec fn starts_with(s: Seq<char>, prefix: Seq<char>) -> bool {
    s.len() >= prefix.len() && s.take(prefix.len() as int) == prefix
}

/// Only the ring methods and the completion-port pipe deliver streaming or windowed
/// workloads; every method runs round trips.
pub open spec fn workload_supported_spec(workload: Seq<char>, executable: Seq<char>) -> bool {
    workload == "round-trip"@ || executable == "named-pipe-iocp"@ || starts_with(
        executable,
        "shm-ring-"@,
    )
}

/// Whether the executable named `executable` (its file stem) runs `workload`.
pub fn workload_supported(workload: &str, executable: &str) -> (supported: bool)
    ensures
        supported == workload_supported_spec(workload@, executable@),
{
    if str_eq(workload, "round-trip") || str_eq(executable, "named-pipe-iocp") {
        return true;
    }
    let prefix = "shm-ring-";
    let m = prefix.unicode_len();
    if executable.unicode_len() < m {
        return false;
    }
    str_eq(executable.substring_char(0, m), prefix)
}

impl BenchmarkConfig {
    /// The usage text of the program called `program_name`.
    pub fn usage(program_name: &str) -> (text: String)
        ensures
            text@ == usage_spec(program_name@),
    {
        join3(
            "Usage: ",
            program_name,
            " [options]\n\nOptions:\n  -c, --message-count <N>  Number of measured round trips (default: 1000)\n  -s, --message-size <N>   Payload size in bytes (default: 1000)\n  -w, --warmup-count <N>   Warmup iterations before timing (default: 100)\n  -t, --trials <N>         Number of benchmark trials (default: 3)\n      --format <FORMAT>    Output format: text | json (default: text)\n      --role <ROLE>        Internal process role: parent | child\n      --validation <MODE>  full (default) | sampled (every 1024, plus preflight/final)\n      --measurement <MODE> batch (default) | latency (every operation)\n      --timeout-seconds <N> Process-tree deadline (default: 120)\n      --workload <MODE>    round-trip | streaming | windowed (rings; IOCP windowed)\n      --queue-depth <N>    Maximum outstanding requests, 1..256\n      --ring-capacity <N>  Power-of-two slots per direction, 1..256",
        )
    }

    /// Eight sequence bytes are protocol overhead, excluded from payload byte rates.
    pub fn wire_size(&self) -> (size: usize)
        requires
            self.message_size + 8 <= usize::MAX,
        ensures
            size == self.message_size + 8,
    {
        self.message_size + 8
    }

    /// The argument words that make a worker process read back this configuration
    /// in the given role.
    pub fn args_for_role(&self, role: ProcessRole) -> (args: Vec<String>)
        ensures
            views_of(args@) == args_for_role_spec(self@, role),
    {
        let mut args: Vec<String> = Vec::new();
        args.push(String::from_str("--workload"));
        args.push(self.workload.clone());
        args.push(String::from_str("--queue-depth"));
        args.push(format_usize(self.queue_depth));
        args.push(String::from_str("--ring-capacity"));
        args.push(format_usize(self.ring_capacity));
        args.push(String::from_str("--validation"));
        args.push(self.validation.clone());
        args.push(String::from_str("--measurement"));
        args.push(self.measurement.clone());
        args.push(String::from_str("--timeout-seconds"));
        args.push(format_usize(self.timeout_seconds));
        args.push(String::from_str("--message-count"));
        args.push(format_usize(self.message_count));
        args.push(String::from_str("--message-size"));
        args.push(format_usize(self.message_size));
        args.push(String::from_str("--warmup-count"));
        args.push(format_usize(self.warmup_count));
        args.push(String::from_str("--trials"));
        args.push(format_usize(self.trials));
        args.push(String::from_str("--format"));
        args.push(
            String::from_str(
                match self.output_format {
                    OutputFormat::Text => "text",
                    OutputFormat::Json => "json",
                },
            ),
        );
        args.push(String::from_str("--role"));
        args.push(
            String::from_str(
                match role {
                    ProcessRole::Parent => "parent",
                    ProcessRole::Child => "child",
                },
            ),
        );
        proof {
            assert(views_of(args@) =~= args_for_role_spec(self@, role));
        }
        args
    }

    /// The argument words for this configuration's worker process.
    pub fn child_args(&self) -> (args: Vec<String>)
        ensures
            views_of(args@) == args_for_role_spec(self@, ProcessRole::Child),
    {
        self.args_for_role(ProcessRole::Child)
    }

    fn set_numeric_field(&mut self, field: NumericField, value: usize)
        ensures
            final(self)@ == set_numeric(old(self)@, field, value),
    {
        match field {
            NumericField::Timeout => self.timeout_seconds = value,
            NumericField::QueueDepth => self.queue_depth = value,
            NumericField::RingCapacity => self.ring_capacity = value,
            NumericField::MessageCount => self.message_count = value,
            NumericField::MessageSize => self.message_size = value,
            NumericField::WarmupCount => self.warmup_count = value,
            NumericField::Trials => self.trials = value,
        }
    }

    fn set_choice_field(&mut self, field: ChoiceField, value: String)
        ensures
            final(self)@ == set_choice(old(self)@, field, value@),
    {
        match field {
            ChoiceField::Validation => self.validation = value,
            ChoiceField::Measurement => self.measurement = value,
            ChoiceField::Workload => self.workload = value,
        }
    }

    fn validate(&self) -> (result: Result<(), String>)
        ensures
            match result {
                Ok(()) => validate_spec(self@) == Ok::<ConfigModel, Seq<char>>(self@),
                Err(message) => validate_spec(self@) == Err::<ConfigModel, Seq<char>>(message@),
            },
    {
        if self.message_size == 0 || self.message_size > 1048576 {
            return Err(String::from_str("message size must be between 1 and 1048576 payload bytes"));
        }
        if self.timeout_seconds == 0 || self.timeout_seconds > 86400 {
            return Err(String::from_str("timeout must be between 1 and 86400 seconds"));
        }
        if self.queue_depth == 0 || self.queue_depth > 256 || !is_power_of_two(self.ring_capacity)
            || self.ring_capacity > 256 {
            return Err(
                String::from_str(
                    "queue depth must be 1..256; ring capacity must be a power of two in 1..256",
                ),
            );
        }
        let round_trip = str_eq(self.workload.as_str(), "round-trip");
        if round_trip && self.queue_depth != 1 {
            return Err(String::from_str("round-trip workload requires queue depth one"));
        }
        if !round_trip && !str_eq(self.validation.as_str(), "full") {
            return Err(String::from_str("throughput workloads require full delivery validation"));
        }
        let total = match self.message_count.checked_mul(self.trials) {
            Some(product) => product.checked_add(self.warmup_count),
            None => None,
        };
        let within_limit = match total {
            Some(n) => n <= 1_000_000_000,
            None => false,
        };
        if !within_limit {
            return Err(String::from_str("total operation count exceeds 1000000000"));
        }
        if self.message_count == 0 {
            return Err(String::from_str("message count must be greater than zero"));
        }
        let batch = if str_eq(self.measurement.as_str(), "latency") {
            1
        } else {
            measurement_batch_size(self.message_count)
        };
        let batches = if self.message_count % batch == 0 {
            self.message_count / batch
        } else {
            self.message_count / batch + 1
        };
        proof {
            if self@.measurement == "latency"@ {
                assert(ceil_div(self.message_count as nat, 1) == self.message_count);
            }
        }
        let samples_ok = match batches.checked_mul(self.trials) {
            Some(n) => n <= 1_000_000,
            None => false,
        };
        if !samples_ok {
            return Err(
                String::from_str(
                    "retained measurement samples exceed 1000000; reduce count/trials or use batches",
                ),
            );
        }
        if self.trials == 0 {
            return Err(String::from_str("trials must be greater than zero"));
        }
        Ok(())
    }

    /// Reads the options in `args` (without the program's name) over the defaults, then
    /// checks their bounds. `program_name` only enters the usage text of an error.
    pub fn from_args(program_name: &str, args: Vec<String>) -> (result: Result<Self, String>)
        ensures
            match result {
                Ok(config) => from_args_spec(program_name@, views_of(args@))
                    == Ok::<ConfigModel, Seq<char>>(config@),
                Err(message) => from_args_spec(program_name@, views_of(args@)) == Err::<
                    ConfigModel,
                    Seq<char>,
                >(message@),
            },
    {
        let ghost program = program_name@;
        let ghost words = views_of(args@);
        let mut config = BenchmarkConfig::default();
        let mut index: usize = 0;
        while index < args.len()
            invariant
                words == views_of(args@),
                program == program_name@,
                index <= args.len(),
                parse_from(program, words, 0, default_config()) == parse_from(
                    program,
                    words,
                    index as nat,
                    config@,
                ),
            decreases args.len() - index,
        {
            let current = args[index].as_str();
            assert(current@ == words[index as int]);
            let kind = classify_flag(current);
            match kind {
                FlagKind::Help => {
                    return Err(Self::usage(program_name));
                },
                FlagKind::Unknown => {
                    let mut message = join3("unrecognized argument `", current, "`\n\n");
                    message.append(Self::usage(program_name).as_str());
                    return Err(message);
                },
                _ => {},
            }
            if index + 1 >= args.len() {
                let mut message = String::from_str("missing value for ");
                message.append(current);
                return Err(message);
            }
            let value = args[index + 1].as_str();
            assert(value@ == words[index + 1]);
            match kind {
                FlagKind::Choice(field) => {
                    if !choice_is_allowed(field, value) {
                        let mut message = join3("invalid value `", value, "` for ");
                        message.append(current);
                        return Err(message);
                    }
                    config.set_choice_field(field, args[index + 1].clone());
                },
                FlagKind::Numeric(field) => {
                    match parse_usize(value) {
                        Some(n) => config.set_numeric_field(field, n),
                        None => {
                            let mut message = join3("invalid ", label_text(field), " `");
                            message.append(value);
                            message.append("`");
                            return Err(message);
                        },
                    }
                },
                FlagKind::Format => {
                    if str_eq(value, "text") {
                        config.output_format = OutputFormat::Text;
                    } else if str_eq(value, "json") {
                        config.output_format = OutputFormat::Json;
                    } else {
                        return Err(
                            join3(
                                "invalid output format `",
                                value,
                                "`; expected `text` or `json`",
                            ),
                        );
                    }
                },
                _ => {
                    if str_eq(value, "parent") {
                        config.role = ProcessRole::Parent;
                    } else if str_eq(value, "child") {
                        config.role = ProcessRole::Child;
                    } else {
                        return Err(
                            join3(
                                "invalid process role `",
                                value,
                                "`; expected `parent` or `child`",
                            ),
                        );
                    }
                },
            }
            index = index + 2;
        }
        match config.validate() {
            Ok(()) => Ok(config),
            Err(message) => Err(message),
        }
    }
}

proof fn lemma_flag_kinds()
    ensures
        flag_kind("--workload"@) == FlagKind::Choice(ChoiceField::Workload),
        flag_kind("--validation"@) == FlagKind::Choice(ChoiceField::Validation),
        flag_kind("--measurement"@) == FlagKind::Choice(ChoiceField::Measurement),
        flag_kind("--queue-depth"@) == FlagKind::Numeric(NumericField::QueueDepth),
        flag_kind("--ring-capacity"@) == FlagKind::Numeric(NumericField::RingCapacity),
        flag_kind("--timeout-seconds"@) == FlagKind::Numeric(NumericField::Timeout),
        flag_kind("--message-count"@) == FlagKind::Numeric(NumericField::MessageCount),
        flag_kind("--message-size"@) == FlagKind::Numeric(NumericField::MessageSize),
        flag_kind("--warmup-count"@) == FlagKind::Numeric(NumericField::WarmupCount),
        flag_kind("--trials"@) == FlagKind::Numeric(NumericField::Trials),
        flag_kind("--format"@) == FlagKind::Format,
        flag_kind("--role"@) == FlagKind::Role,
        "text"@ != "json"@,
        "parent"@ != "child"@,
{
    reveal_strlit("--validation");
    reveal_strlit("--measurement");
    reveal_strlit("--workload");
    reveal_strlit("--timeout-seconds");
    reveal_strlit("--queue-depth");
    reveal_strlit("--ring-capacity");
    reveal_strlit("-c");
    reveal_strlit("--message-count");
    reveal_strlit("-s");
    reveal_strlit("--message-size");
    reveal_strlit("-w");
    reveal_strlit("--warmup-count");
    reveal_strlit("-t");
    reveal_strlit("--trials");
    reveal_strlit("--format");
    reveal_strlit("--role");
    reveal_strlit("--help");
    reveal_strlit("-h");
    reveal_strlit("text");
    reveal_strlit("json");
    reveal_strlit("parent");
    reveal_strlit("child");
    assert("--validation"@.len() == 12);
    assert("--measurement"@.len() == 13);
    assert("--workload"@.len() == 10);
    assert("--timeout-seconds"@.len() == 17);
    assert("--queue-depth"@.len() == 13);
    assert("--ring-capacity"@.len() == 15);
    assert("-c"@.len() == 2);
    assert("--message-count"@.len() == 15);
    assert("-s"@.len() == 2);
    assert("--message-size"@.len() == 14);
    assert("-w"@.len() == 2);
    assert("--warmup-count"@.len() == 14);
    assert("-t"@.len() == 2);
    assert("--trials"@.len() == 8);
    assert("--format"@.len() == 8);
    assert("--role"@.len() == 6);
    assert("--help"@.len() == 6);
    assert("-h"@.len() == 2);
    assert("text"@.len() == 4);
    assert("json"@.len() == 4);
    assert("parent"@.len() == 6);
    assert("child"@.len() == 5);
    assert("--validation"@[2] == 'v');
    assert("--measurement"@[2] == 'm');
    assert("--workload"@[2] == 'w');
    assert("--timeout-seconds"@[2] == 't');
    assert("--queue-depth"@[2] == 'q');
    assert("--ring-capacity"@[2] == 'r');
    assert("-c"@[1] == 'c');
    assert("--message-count"@[2] == 'm');
    assert("-s"@[1] == 's');
    assert("--message-size"@[2] == 'm');
    assert("-w"@[1] == 'w');
    assert("--warmup-count"@[2] == 'w');
    assert("-t"@[1] == 't');
    assert("--trials"@[2] == 't');
    assert("--format"@[2] == 'f');
    assert("--role"@[2] == 'r');
    assert("--help"@[2] == 'h');
    assert("-h"@[1] == 'h');
    assert("text"@[1] == 'e');
    assert("json"@[1] == 's');
    assert("parent"@[1] == 'a');
    assert("child"@[1] == 'h');
}

proof fn lemma_step_choice(
    program: Seq<char>,
    args: Seq<Seq<char>>,
    i: nat,
    cfg: ConfigModel,
    field: ChoiceField,
)
    requires
        i + 1 < args.len(),
        flag_kind(args[i as int]) == FlagKind::Choice(field),
        choice_allowed(field, args[i + 1 as int]),
    ensures
        parse_from(program, args, i, cfg) == parse_from(
            program,
            args,
            i + 2,
            set_choice(cfg, field, args[i + 1 as int]),
        ),
{
}

proof fn lemma_step_numeric(
    program: Seq<char>,
    args: Seq<Seq<char>>,
    i: nat,
    cfg: ConfigModel,
    field: NumericField,
    n: usize,
)
    requires
        i + 1 < args.len(),
        flag_kind(args[i as int]) == FlagKind::Numeric(field),
        args[i + 1 as int] == decimal(n as nat),
    ensures
        parse_from(program, args, i, cfg) == parse_from(
            program,
            args,
            i + 2,
            set_numeric(cfg, field, n),
        ),
{
    lemma_parse_format_round_trip(n);
}

/// Every configuration the command line yields stays within the supported bounds:
/// payloads of 1 to 1048576 bytes, deadlines of 1 to 86400 seconds, a queue depth of
/// 1 to 256 (exactly one for round trips), a power-of-two ring capacity of at most
/// 256, at least one message and one trial, at most one billion operations in all,
/// at most one million retained samples, and full validation for throughput runs.
pub proof fn lemma_accepted_config_bounds(program: Seq<char>, args: Seq<Seq<char>>)
    ensures
        from_args_spec(program, args) matches Ok(cfg) ==> {
            &&& 1 <= cfg.message_size <= 1048576
            &&& 1 <= cfg.timeout_seconds <= 86400
            &&& 1 <= cfg.queue_depth <= 256
            &&& 1 <= cfg.ring_capacity <= 256
            &&& is_power_of_two_spec(cfg.ring_capacity as nat)
            &&& cfg.message_count >= 1
            &&& cfg.trials >= 1
            &&& cfg.message_count * cfg.trials + cfg.warmup_count <= 1_000_000_000
            &&& retained_per_trial(cfg) * cfg.trials <= 1_000_000
            &&& cfg.workload == "round-trip"@ ==> cfg.queue_depth == 1
            &&& cfg.workload != "round-trip"@ ==> cfg.validation == "full"@
        },
{
    if let Ok(cfg) = from_args_spec(program, args) {
        if cfg.ring_capacity == 0 {
            assert(!is_power_of_two_spec(0));
        }
    }
}

proof fn lemma_small_powers_of_two(n: nat)
    ensures
        n <= 256 ==> (is_power_of_two_spec(n) <==> (n == 1 || n == 2 || n == 4 || n == 8 || n
            == 16 || n == 32 || n == 64 || n == 128 || n == 256)),
    decreases n,
{
    if n >= 2 && n % 2 == 0 {
        lemma_small_powers_of_two(n / 2);
    }
}

/// Validation accepts exactly the supported configurations, and accepts them
/// unchanged: a payload of 1 to 1048576 bytes, a deadline of 1 to 86400 seconds, a
/// queue depth of 1 to 256 (one for round trips), a ring capacity among the powers
/// of two up to 256 (independently of the queue depth), full validation for
/// throughput workloads, at least one message and one trial, at most one billion
/// operations, and at most one million retained samples: one per round trip when
/// timing each, else one per batch of `ceil(count / 100)` clamped to 1..100.
pub proof fn lemma_validation_exact(cfg: ConfigModel)
    ensures
        validate_spec(cfg) is Ok ==> validate_spec(cfg) == Ok::<ConfigModel, Seq<char>>(cfg),
        (validate_spec(cfg) is Ok) <==> {
            let count = cfg.message_count as int;
            let batch = if (count + 99) / 100 < 1 {
                1
            } else if (count + 99) / 100 > 100 {
                100
            } else {
                (count + 99) / 100
            };
            let samples = if cfg.measurement == "latency"@ {
                count
            } else {
                (count + batch - 1) / batch
            };
            &&& 1 <= cfg.message_size <= 1048576
            &&& 1 <= cfg.timeout_seconds <= 86400
            &&& 1 <= cfg.queue_depth <= 256
            &&& (cfg.ring_capacity == 1 || cfg.ring_capacity == 2 || cfg.ring_capacity == 4
                || cfg.ring_capacity == 8 || cfg.ring_capacity == 16 || cfg.ring_capacity == 32
                || cfg.ring_capacity == 64 || cfg.ring_capacity == 128 || cfg.ring_capacity
                == 256)
            &&& cfg.workload == "round-trip"@ ==> cfg.queue_depth == 1
            &&& cfg.workload != "round-trip"@ ==> cfg.validation == "full"@
            &&& count >= 1
            &&& cfg.trials >= 1
            &&& count * cfg.trials + cfg.warmup_count <= 1_000_000_000
            &&& samples * cfg.trials <= 1_000_000
        },
{
    lemma_small_powers_of_two(cfg.ring_capacity as nat);
    let count = cfg.message_count as nat;
    let q = ceil_div(count, 100);
    assert(q == (count as int + 99) / 100);
    let b = batch_size_spec(count);
    assert(b >= 1);
    assert(ceil_div(count, b) == (count as int + b - 1) / (b as int)) by (nonlinear_arith)
        requires
            b >= 1,
            ceil_div(count, b) == if count % b == 0 {
                count / b
            } else {
                count / b + 1
            },
    ;
    if cfg.message_count * cfg.trials > usize::MAX {
        assert(count * cfg.trials + cfg.warmup_count > 1_000_000_000);
    }
}

/// A worker reads back exactly the configuration its parent holds: reading the
/// argument words written for any role gives the parent's configuration with that
/// role, for every configuration that passes validation and whose option words are
/// among the accepted ones.
pub proof fn lemma_args_round_trip(program: Seq<char>, cfg: ConfigModel, role: ProcessRole)
    requires
        choice_allowed(ChoiceField::Workload, cfg.workload),
        choice_allowed(ChoiceField::Validation, cfg.validation),
        choice_allowed(ChoiceField::Measurement, cfg.measurement),
        validate_spec(cfg) is Ok,
    ensures
        from_args_spec(program, args_for_role_spec(cfg, role)) == Ok::<ConfigModel, Seq<char>>(
            ConfigModel { role: role, ..cfg },
        ),
{
    lemma_flag_kinds();
    let a = args_for_role_spec(cfg, role);
    let c0 = default_config();
    let c1 = set_choice(c0, ChoiceField::Workload, cfg.workload);
    lemma_step_choice(program, a, 0, c0, ChoiceField::Workload);
    let c2 = set_numeric(c1, NumericField::QueueDepth, cfg.queue_depth);
    lemma_step_numeric(program, a, 2, c1, NumericField::QueueDepth, cfg.queue_depth);
    let c3 = set_numeric(c2, NumericField::RingCapacity, cfg.ring_capacity);
    lemma_step_numeric(program, a, 4, c2, NumericField::RingCapacity, cfg.ring_capacity);
    let c4 = set_choice(c3, ChoiceField::Validation, cfg.validation);
    lemma_step_choice(program, a, 6, c3, ChoiceField::Validation);
    let c5 = set_choice(c4, ChoiceField::Measurement, cfg.measurement);
    lemma_step_choice(program, a, 8, c4, ChoiceField::Measurement);
    let c6 = set_numeric(c5, NumericField::Timeout, cfg.timeout_seconds);
    lemma_step_numeric(program, a, 10, c5, NumericField::Timeout, cfg.timeout_seconds);
    let c7 = set_numeric(c6, NumericField::MessageCount, cfg.message_count);
    lemma_step_numeric(program, a, 12, c6, NumericField::MessageCount, cfg.message_count);
    let c8 = set_numeric(c7, NumericField::MessageSize, cfg.message_size);
    lemma_step_numeric(program, a, 14, c7, NumericField::MessageSize, cfg.message_size);
    let c9 = set_numeric(c8, NumericField::WarmupCount, cfg.warmup_count);
    lemma_step_numeric(program, a, 16, c8, NumericField::WarmupCount, cfg.warmup_count);
    let c10 = set_numeric(c9, NumericField::Trials, cfg.trials);
    lemma_step_numeric(program, a, 18, c9, NumericField::Trials, cfg.trials);
    let c11 = ConfigModel { output_format: cfg.output_format, ..c10 };
    assert(parse_from(program, a, 20, c10) == parse_from(program, a, 22, c11));
    let c12 = ConfigModel { role: role, ..c11 };
    assert(parse_from(program, a, 22, c11) == parse_from(program, a, 24, c12));
    assert(parse_from(program, a, 24, c12) == Ok::<ConfigModel, Seq<char>>(c12));
    assert(c12 == ConfigModel { role: role, ..cfg });
}

} // verus!
