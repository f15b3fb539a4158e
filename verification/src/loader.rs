//! What the Vulkan loader and the layer agree on.

use crate::text;
use vstd::prelude::*;

verus! {

pub const CURRENT_LOADER_LAYER_INTERFACE_VERSION: u32 = 2;

pub const LOADER_INSTANCE_CREATE_INFO: i32 = 47;

pub const LOADER_DEVICE_CREATE_INFO: i32 = 48;

#[derive(Clone, Copy, PartialEq, Eq, Debug, Structural)]
pub enum NegotiateLayerStructType {
    Uninitialized,
    InterfaceStruct,
}

/// `VkLayerFunction`
#[derive(Clone, Copy, PartialEq, Eq, Debug, Structural)]
pub enum LayerFunction {
    LayerLinkInfo,
    LoaderDataCallback,
    LoaderLayerCreateDeviceCallback,
    LoaderFeatures,
}

/// Number of a function in the loader's structures.
pub open spec fn function_code(f: LayerFunction) -> u32 {
    match f {
        LayerFunction::LayerLinkInfo => 0,
        LayerFunction::LoaderDataCallback => 1,
        LayerFunction::LoaderLayerCreateDeviceCallback => 2,
        LayerFunction::LoaderFeatures => 3,
    }
}

/// Number of a kind of structure.
pub open spec fn struct_code(t: NegotiateLayerStructType) -> u32 {
    match t {
        NegotiateLayerStructType::Uninitialized => 0,
        NegotiateLayerStructType::InterfaceStruct => 1,
    }
}

impl LayerFunction {
    pub fn code(self) -> (r: u32)
        ensures
            r == function_code(self),
    {
        match self {
            LayerFunction::LayerLinkInfo => 0,
            LayerFunction::LoaderDataCallback => 1,
            LayerFunction::LoaderLayerCreateDeviceCallback => 2,
            LayerFunction::LoaderFeatures => 3,
        }
    }
}

impl NegotiateLayerStructType {
    pub fn code(self) -> (r: u32)
        ensures
            r == struct_code(self),
    {
        match self {
            NegotiateLayerStructType::Uninitialized => 0,
            NegotiateLayerStructType::InterfaceStruct => 1,
        }
    }

    /// The kind of structure that a number stands for.
    pub fn from_code(code: u32) -> (r: Option<NegotiateLayerStructType>)
        ensures
            match r {
                Some(t) => struct_code(t) == code,
                None => code > 1,
            },
    {
        match code {
            0 => Some(NegotiateLayerStructType::Uninitialized),
            1 => Some(NegotiateLayerStructType::InterfaceStruct),
            _ => None,
        }
    }
}

/// The version to go on with when the loader offers `version`, if the layer
/// can talk to it.
pub open spec fn agreed(s_type: NegotiateLayerStructType, version: u32) -> Option<u32> {
    if s_type != NegotiateLayerStructType::InterfaceStruct || version < 2 {
        None
    } else if version < CURRENT_LOADER_LAYER_INTERFACE_VERSION {
        Some(version)
    } else {
        Some(CURRENT_LOADER_LAYER_INTERFACE_VERSION)
    }
}

/// The version to go on with.
pub fn negotiate(s_type: NegotiateLayerStructType, version: u32) -> (r: Option<u32>)
    ensures
        r == agreed(s_type, version),
{
    if s_type != NegotiateLayerStructType::InterfaceStruct || version < 2 {
        return None;
    }
    if version < CURRENT_LOADER_LAYER_INTERFACE_VERSION {
        Some(version)
    } else {
        Some(CURRENT_LOADER_LAYER_INTERFACE_VERSION)
    }
}

/// An agreed version is never newer than the loader's or the layer's own.
pub proof fn lemma_agreed_is_common(s_type: NegotiateLayerStructType, version: u32)
    requires
        agreed(s_type, version) is Some,
    ensures
        agreed(s_type, version)->0 <= version,
        agreed(s_type, version)->0 <= CURRENT_LOADER_LAYER_INTERFACE_VERSION,
{
}

/// One structure of a chain: its type, and the function that it carries if it
/// is one of the loader's.
#[derive(Clone, Copy, PartialEq, Eq, Debug, Structural)]
pub struct Link {
    pub s_type: i32,
    pub function: u32,
}

/// The structure is the loader's one for `function`.
pub open spec fn carries(link: Link, s_type: i32, function: LayerFunction) -> bool {
    link.s_type == s_type && link.function == function_code(function)
}

/// Whether a structure is the one looked for.
pub fn is_wanted(link: Link, s_type: i32, function: LayerFunction) -> (r: bool)
    ensures
        r == carries(link, s_type, function),
{
    link.s_type == s_type && link.function == function.code()
}

/// Looks in a chain for the loader structure of `s_type` carrying `function`:
/// the first one counts.
pub fn find_in_chain(chain: &Vec<Link>, s_type: i32, function: LayerFunction) -> (r: Option<usize>)
    ensures
        match r {
            Some(i) => i < chain@.len() && carries(chain@[i as int], s_type, function) && forall|
                j: int,
            |
                0 <= j < i ==> !carries(#[trigger] chain@[j], s_type, function),
            None => forall|j: int|
                0 <= j < chain@.len() ==> !carries(#[trigger] chain@[j], s_type, function),
        },
{
    let mut i: usize = 0;
    while i < chain.len()
        invariant
            i <= chain@.len(),
            forall|j: int| 0 <= j < i ==> !carries(#[trigger] chain@[j], s_type, function),
        decreases chain@.len() - i,
    {
        if is_wanted(chain[i], s_type, function) {
            return Some(i);
        }
        i = i + 1;
    }
    None
}

// ----------------------------------------------------------------------- hooks

/// The entry points that the layer intercepts.
#[derive(Clone, Copy, PartialEq, Eq, Debug, Structural)]
pub enum Hook {
    GetInstanceProcAddr,
    CreateInstance,
    DestroyInstance,
    CreateDevice,
    GetDeviceProcAddr,
    DestroyDevice,
    GetDeviceQueue,
    GetDeviceQueue2,
    CreateSwapchain,
    DestroySwapchain,
    QueuePresent,
}

/// Name that an entry point is asked for by.
pub open spec fn hook_name(h: Hook) -> Seq<char> {
    match h {
        Hook::GetInstanceProcAddr => "vkGetInstanceProcAddr"@,
        Hook::CreateInstance => "vkCreateInstance"@,
        Hook::DestroyInstance => "vkDestroyInstance"@,
        Hook::CreateDevice => "vkCreateDevice"@,
        Hook::GetDeviceProcAddr => "vkGetDeviceProcAddr"@,
        Hook::DestroyDevice => "vkDestroyDevice"@,
        Hook::GetDeviceQueue => "vkGetDeviceQueue"@,
        Hook::GetDeviceQueue2 => "vkGetDeviceQueue2"@,
        Hook::CreateSwapchain => "vkCreateSwapchainKHR"@,
        Hook::DestroySwapchain => "vkDestroySwapchainKHR"@,
        Hook::QueuePresent => "vkQueuePresentKHR"@,
    }
}

/// The entry point belongs to an instance rather than to a device.
pub open spec fn of_instance(h: Hook) -> bool {
    h == Hook::GetInstanceProcAddr || h == Hook::CreateInstance || h == Hook::DestroyInstance || h
        == Hook::CreateDevice
}

/// Device-level hooks.
pub fn device_hook(name: &str) -> (r: Option<Hook>)
    ensures
        match r {
            Some(h) => !of_instance(h) && hook_name(h) == name@,
            None => forall|h: Hook| !of_instance(h) ==> #[trigger] hook_name(h) != name@,
        },
{
    let c: Vec<char> = text::chars_of(name);
    let c: &[char] = c.as_slice();
    if text::same_text(c, "vkGetDeviceProcAddr") {
        Some(Hook::GetDeviceProcAddr)
    } else if text::same_text(c, "vkDestroyDevice") {
        Some(Hook::DestroyDevice)
    } else if text::same_text(c, "vkGetDeviceQueue") {
        Some(Hook::GetDeviceQueue)
    } else if text::same_text(c, "vkGetDeviceQueue2") {
        Some(Hook::GetDeviceQueue2)
    } else if text::same_text(c, "vkCreateSwapchainKHR") {
        Some(Hook::CreateSwapchain)
    } else if text::same_text(c, "vkDestroySwapchainKHR") {
        Some(Hook::DestroySwapchain)
    } else if text::same_text(c, "vkQueuePresentKHR") {
        Some(Hook::QueuePresent)
    } else {
        None
    }
}

/// Instance-level hooks.
pub fn instance_hook(name: &str) -> (r: Option<Hook>)
    ensures
        match r {
            Some(h) => of_instance(h) && hook_name(h) == name@,
            None => forall|h: Hook| of_instance(h) ==> #[trigger] hook_name(h) != name@,
        },
{
    let c: Vec<char> = text::chars_of(name);
    let c: &[char] = c.as_slice();
    if text::same_text(c, "vkGetInstanceProcAddr") {
        Some(Hook::GetInstanceProcAddr)
    } else if text::same_text(c, "vkCreateInstance") {
        Some(Hook::CreateInstance)
    } else if text::same_text(c, "vkDestroyInstance") {
        Some(Hook::DestroyInstance)
    } else if text::same_text(c, "vkCreateDevice") {
        Some(Hook::CreateDevice)
    } else {
        None
    }
}

/// What an application is given when it asks an instance for an entry point:
/// device-level hooks too, as required for applications that resolve device
/// functions through the instance.
pub fn hook_for_instance(name: &str) -> (r: Option<Hook>)
    ensures
        match r {
            Some(h) => hook_name(h) == name@,
            None => forall|h: Hook| #[trigger] hook_name(h) != name@,
        },
{
    match instance_hook(name) {
        Some(h) => Some(h),
        None => device_hook(name),
    }
}

/// No two entry points share a name, so a name finds one hook at most.
pub proof fn lemma_hook_names(a: Hook, b: Hook)
    requires
        hook_name(a) == hook_name(b),
    ensures
        a == b,
{
    reveal_strlit("vkGetInstanceProcAddr");
    reveal_strlit("vkCreateInstance");
    reveal_strlit("vkDestroyInstance");
    reveal_strlit("vkCreateDevice");
    reveal_strlit("vkGetDeviceProcAddr");
    reveal_strlit("vkDestroyDevice");
    reveal_strlit("vkGetDeviceQueue");
    reveal_strlit("vkGetDeviceQueue2");
    reveal_strlit("vkCreateSwapchainKHR");
    reveal_strlit("vkDestroySwapchainKHR");
    reveal_strlit("vkQueuePresentKHR");
    if a != b {
        // Names of the same length differ in their third or sixth letter.
        let x = hook_name(a);
        let y = hook_name(b);
        assert(x.len() == y.len());
        assert(x[2] == y[2]);
        assert(x[5] == y[5]);
    }
}

// --------------------------------------------------------------------- logging

#[derive(Clone, Copy, PartialEq, Eq, Debug, Structural)]
pub enum Level {
    Error,
    Warn,
    Info,
    Debug,
}

/// The levels in order: what is worse comes first.
pub open spec fn rank(l: Level) -> int {
    match l {
        Level::Error => 0,
        Level::Warn => 1,
        Level::Info => 2,
        Level::Debug => 3,
    }
}

/// The level that `VKSLANG_LOG` asks for.
pub open spec fn level_named(v: Option<Seq<char>>) -> Level {
    match v {
        Some(s) => if s == "error"@ {
            Level::Error
        } else if s == "warn"@ {
            Level::Warn
        } else if s == "debug"@ || s == "trace"@ {
            Level::Debug
        } else {
            Level::Info
        },
        None => Level::Info,
    }
}

/// The level that `VKSLANG_LOG` asks for.
pub fn max_level(v: Option<&str>) -> (r: Level)
    ensures
        r == level_named(
            match v {
                Some(s) => Some(s@),
                None => None,
            },
        ),
{
    match v {
        Some(s) => {
            if text::equal_texts(s, "error") {
                Level::Error
            } else if text::equal_texts(s, "warn") {
                Level::Warn
            } else if text::equal_texts(s, "debug") || text::equal_texts(s, "trace") {
                Level::Debug
            } else {
                Level::Info
            }
        },
        None => Level::Info,
    }
}

impl Level {
    fn number(self) -> (r: u8)
        ensures
            r == rank(self),
    {
        match self {
            Level::Error => 0,
            Level::Warn => 1,
            Level::Info => 2,
            Level::Debug => 3,
        }
    }

    /// Whether a message of this level is written when `max` is asked for.
    pub fn is_shown(self, max: Level) -> (r: bool)
        ensures
            r == (rank(self) <= rank(max)),
    {
        self.number() <= max.number()
    }

    pub fn tag(self) -> (r: &'static str)
        ensures
            r@ == tag_of(self),
    {
        match self {
            Level::Error => "error",
            Level::Warn => "warn",
            Level::Info => "info",
            Level::Debug => "debug",
        }
    }
}

pub open spec fn tag_of(l: Level) -> Seq<char> {
    match l {
        Level::Error => "error"@,
        Level::Warn => "warn"@,
        Level::Info => "info"@,
        Level::Debug => "debug"@,
    }
}

/// A message as it is written.
pub fn log_line(level: Level, message: &str) -> (r: String)
    ensures
        r@ == "vkSlang "@ + tag_of(level) + ": "@ + message@,
{
    let mut out: Vec<char> = text::chars_of("vkSlang ");
    text::append_text(&mut out, level.tag());
    text::append_text(&mut out, ": ");
    text::append_text(&mut out, message);
    text::text_of(out.as_slice())
}

/// A line of the log file, marked with the process that wrote it.
pub fn file_line(pid: u32, line: &str) -> (r: String)
    ensures
        r@ == "["@ + text::decimal(pid as nat) + "] "@ + line@,
{
    let mut out: Vec<char> = text::chars_of("[");
    text::append(&mut out, text::write_number(pid as u64).as_slice());
    text::append_text(&mut out, "] ");
    text::append_text(&mut out, line);
    text::text_of(out.as_slice())
}

/// The layer talks to every loader of version 2 or later that sends the right
/// structure, in version 2, and to no other.
pub proof fn lemma_agreed(s_type: NegotiateLayerStructType, version: u32)
    ensures
        agreed(s_type, version) is Some <==> s_type == NegotiateLayerStructType::InterfaceStruct
            && version >= 2,
        agreed(s_type, version) is Some ==> agreed(s_type, version) == Some(2u32),
{
}

/// A message is shown if it is as bad as what is asked for, or worse: with
/// `debug` everything is, with `error` errors alone; `trace` is as `debug`, and
/// without a word that is known all but debugging is shown.
pub proof fn lemma_levels(v: Option<Seq<char>>, l: Level)
    ensures
        ({
            let shown = rank(l) <= rank(level_named(v));
            let e = v == Some("error"@);
            let w = v == Some("warn"@);
            let d = v == Some("debug"@) || v == Some("trace"@);
            &&& l == Level::Error ==> shown
            &&& l == Level::Warn ==> (shown <==> !e)
            &&& l == Level::Info ==> (shown <==> !e && !w)
            &&& l == Level::Debug ==> (shown <==> d)
        }),
{
    reveal_strlit("error");
    reveal_strlit("warn");
    reveal_strlit("debug");
    reveal_strlit("trace");
    assert("error"@[0] == 'e' && "warn"@[0] == 'w' && "debug"@[0] == 'd' && "trace"@[0] == 't');
}

/// The numbers that the loader's structures go by.
pub proof fn lemma_codes(f: LayerFunction, t: NegotiateLayerStructType)
    ensures
        function_code(f) == 0 <==> f == LayerFunction::LayerLinkInfo,
        function_code(f) == 1 <==> f == LayerFunction::LoaderDataCallback,
        function_code(f) == 2 <==> f == LayerFunction::LoaderLayerCreateDeviceCallback,
        function_code(f) == 3 <==> f == LayerFunction::LoaderFeatures,
        struct_code(t) == 1 <==> t == NegotiateLayerStructType::InterfaceStruct,
        struct_code(t) <= 1,
{
}

/// A structure of a chain is the one looked for if both its type and the
/// function that it carries are.
pub proof fn lemma_carries(link: Link, s_type: i32, f: LayerFunction, g: LayerFunction)
    ensures
        carries(link, s_type, f) && carries(link, s_type, g) ==> f == g,
        carries(link, s_type, f) ==> link.s_type == s_type,
        carries(Link { s_type, function: function_code(f) }, s_type, f),
{
}

/// Instances have four entry points: those that make and end them, that make
/// devices, and that find entry points; all others belong to devices.
pub proof fn lemma_instance_hooks(h: Hook)
    ensures
        of_instance(h) <==> hook_name(h) == "vkGetInstanceProcAddr"@ || hook_name(h)
            == "vkCreateInstance"@ || hook_name(h) == "vkDestroyInstance"@ || hook_name(h)
            == "vkCreateDevice"@,
{
    if hook_name(h) == "vkGetInstanceProcAddr"@ {
        lemma_hook_names(h, Hook::GetInstanceProcAddr);
    }
    if hook_name(h) == "vkCreateInstance"@ {
        lemma_hook_names(h, Hook::CreateInstance);
    }
    if hook_name(h) == "vkDestroyInstance"@ {
        lemma_hook_names(h, Hook::DestroyInstance);
    }
    if hook_name(h) == "vkCreateDevice"@ {
        lemma_hook_names(h, Hook::CreateDevice);
    }
}

} // verus!
