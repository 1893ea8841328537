//! What device strings mean, by how they are written.
use crate::device::{
    all_read, device_of, law_white_space_around_a_device_is_ignored, list_target,
    may_reach_plugin, named, names_a_gpu, reaches_plugin, target_of, without_batch,
    without_position, OvDevice, OvTarget,
};
use crate::mode::ExecutionMode;
use crate::text::{split_of, split_once_of, trim_end_of, trim_of, trim_start_of, white_space};
use crate::text_laws::{
    all_white, law_split_once_finds_the_parts, law_split_once_is_at_the_first,
    law_trim_end_takes_white_space_off, law_trim_start_takes_white_space_off, lemma_trim_start_of,
};
use vstd::prelude::*;

verus! {

/// How a device is written.
pub open spec fn written(device: OvDevice) -> Seq<char> {
    match device {
        OvDevice::Gpu => seq!['G', 'P', 'U'],
        OvDevice::Cpu => seq!['C', 'P', 'U'],
        OvDevice::Npu => seq!['N', 'P', 'U'],
    }
}

/// The names are spelled as they are.
proof fn lemma_written(name: Seq<char>)
    ensures
        "GPU"@ == written(OvDevice::Gpu),
        "CPU"@ == written(OvDevice::Cpu),
        "NPU"@ == written(OvDevice::Npu),
        forall|device: OvDevice| named(name) == Some(device) <==> name == #[trigger] written(device),
{
    reveal_strlit("GPU");
    reveal_strlit("CPU");
    reveal_strlit("NPU");
    assert("GPU"@ =~= written(OvDevice::Gpu));
    assert("CPU"@ =~= written(OvDevice::Cpu));
    assert("NPU"@ =~= written(OvDevice::Npu));
    let gpu = written(OvDevice::Gpu);
    let cpu = written(OvDevice::Cpu);
    let npu = written(OvDevice::Npu);
    assert(gpu[0] != cpu[0] && gpu[0] != npu[0] && cpu[0] != npu[0]);
}

/// A trimmed text that starts with something else than white space starts as it did.
proof fn lemma_trim_keeps_start(head: Seq<char>, tail: Seq<char>) -> (left: Seq<char>)
    requires
        head.len() > 0,
        !white_space(head[0]),
        !white_space(head.last()),
    ensures
        trim_of(head + tail) == head + left,
        left.len() <= tail.len(),
        forall|i: int| 0 <= i < left.len() ==> left[i] == tail[i],
{
    let s = head + tail;
    lemma_trim_start_of(seq![], s);
    assert(seq![] + s =~= s);
    assert(trim_start_of(s) == s);
    law_trim_end_takes_white_space_off(s);
    let kept = trim_end_of(s);
    let trail = choose|trail: Seq<char>| #[trigger] all_white(trail) && s == kept + trail;
    if kept.len() < head.len() {
        let at = head.len() - 1 - kept.len();
        assert(trail[at] == s[head.len() - 1]);
        assert(white_space(trail[at]));
    }
    let left = kept.skip(head.len() as int);
    assert(kept =~= head + left) by {
        assert forall|i: int| 0 <= i < kept.len() implies #[trigger] kept[i] == (head + left)[i] by {
            assert(kept[i] == s[i]);
        }
    }
    assert forall|i: int| 0 <= i < left.len() implies left[i] == tail[i] by {
        assert(left[i] == kept[i + head.len()]);
        assert(kept[i + head.len()] == s[i + head.len()]);
    }
    left
}

/// A name alone names its device, and so does the name with a full stop and any position
/// behind it.
pub proof fn law_a_position_names_the_same_device(device: OvDevice, position: Seq<char>)
    requires
        !position.contains('('),
    ensures
        device_of(written(device)) == Some(device),
        device_of(written(device) + seq!['.'] + position) == Some(device),
{
    let name = written(device);
    lemma_written(name);
    assert(!white_space(name[0]) && !white_space(name[2]));
    assert(!name.contains('(') && !name.contains('.'));
    // The name alone.
    let none = lemma_trim_keeps_start(name, seq![]);
    assert(name + seq![] =~= name);
    assert(name + none =~= name);
    assert(trim_of(name) == name);
    law_split_once_is_at_the_first(name, '(');
    law_split_once_is_at_the_first(name, '.');
    assert(without_batch(name) == name);
    assert(without_position(name) == name);
    // The name with a position.
    let head = name + seq!['.'];
    let left = lemma_trim_keeps_start(head, position);
    let kept = head + left;
    assert(head + position =~= name + seq!['.'] + position);
    assert(trim_of(name + seq!['.'] + position) == kept);
    assert(!kept.contains('(')) by {
        if kept.contains('(') {
            let i = choose|i: int| 0 <= i < kept.len() && kept[i] == '(';
            if i < 3 {
                assert(name[i] == '(');
            } else if i > 3 {
                assert(left[i - 4] == position[i - 4]);
                assert(position.contains('('));
            }
        }
    }
    law_split_once_is_at_the_first(kept, '(');
    assert(without_batch(kept) == kept);
    law_split_once_finds_the_parts(name, '.', left);
    assert(kept =~= name + seq!['.'] + left);
    assert(without_position(kept) == name);
}

/// A batch size in brackets behind an entry changes nothing.
pub proof fn law_a_batch_size_is_ignored(entry: Seq<char>, size: Seq<char>)
    requires
        !entry.contains('('),
    ensures
        device_of(entry + seq!['('] + size + seq![')']) == device_of(entry),
{
    let whole = entry + seq!['('] + size + seq![')'];
    let started = trim_start_of(entry);
    law_trim_start_takes_white_space_off(entry);
    let lead = choose|lead: Seq<char>| #[trigger] all_white(lead) && entry == lead + started;
    let behind = seq!['('] + size + seq![')'];
    let rest = started + behind;
    assert(rest.len() > 0 && !white_space(rest[0])) by {
        if started.len() > 0 {
            assert(rest[0] == started[0]);
        } else {
            assert(rest[0] == '(');
        }
    }
    lemma_trim_start_of(lead, rest);
    assert(whole =~= lead + rest);
    assert(trim_start_of(whole) == rest);
    assert(rest.last() == ')');
    assert(trim_of(whole) == rest);
    assert(!started.contains('(')) by {
        if started.contains('(') {
            let i = choose|i: int| 0 <= i < started.len() && started[i] == '(';
            assert(entry[i + lead.len()] == '(');
        }
    }
    law_split_once_finds_the_parts(started, '(', size + seq![')']);
    assert(rest =~= started + seq!['('] + (size + seq![')']));
    assert((size + seq![')']).last() == ')');
    assert(without_batch(rest) == trim_of(entry));
    // The entry alone has no batch size to lose.
    let kept = trim_of(entry);
    law_trim_end_takes_white_space_off(started);
    let trail = choose|trail: Seq<char>| #[trigger] all_white(trail) && started == kept + trail;
    assert(!kept.contains('(')) by {
        if kept.contains('(') {
            let i = choose|i: int| 0 <= i < kept.len() && kept[i] == '(';
            assert(started[i] == '(');
        }
    }
    law_split_once_is_at_the_first(kept, '(');
    assert(without_batch(kept) == kept);
}

/// An entry that names a device starts, but for white space, with the device's name, and what
/// follows is nothing, white space, a position or a batch size.
pub proof fn law_an_entry_starts_with_its_device(entry: Seq<char>, device: OvDevice)
    requires
        device_of(entry) == Some(device),
    ensures
        ({
            let text = trim_of(entry);
            let name = written(device);
            &&& text.len() >= 3
            &&& text.take(3) == name
            &&& text.len() > 3 ==> text[3] == '.' || text[3] == '(' || white_space(text[3])
        }),
{
    let text = trim_of(entry);
    let bare = without_batch(text);
    let name = without_position(bare);
    lemma_written(name);
    assert(name == written(device));
    law_split_once_is_at_the_first(bare, '.');
    law_split_once_is_at_the_first(text, '(');
    assert(bare.len() >= 3 && bare.take(3) =~= name && (bare.len() > 3 ==> bare[3] == '.')) by {
        match split_once_of(bare, '.') {
            Some((head, tail)) => {
                assert(bare == head + seq!['.'] + tail);
            },
            None => {},
        }
    }
    match split_once_of(text, '(') {
        Some((head, tail)) => {
            if tail.len() > 0 && tail.last() == ')' {
                law_trim_end_takes_white_space_off(head);
                let trail = choose|trail: Seq<char>|
                    #[trigger] all_white(trail) && head == bare + trail;
                assert(text == bare + trail + seq!['('] + tail);
                assert(text.take(3) =~= name);
                if bare.len() == 3 && trail.len() > 0 {
                    assert(text[3] == trail[0]);
                }
            }
        },
        None => {},
    }
}

/// What a device string without a colon resolves to: the device that it names, a choice left
/// to OpenVINO where it is `AUTO` or `MULTI`, and otherwise perhaps a GPU.
pub proof fn law_single_devices_resolve_to_themselves(device: Seq<char>)
    requires
        !trim_of(device).contains(':'),
    ensures
        target_of(device) == OvTarget::GpuOnly <==> device_of(device) == Some(OvDevice::Gpu),
        target_of(device) == OvTarget::Cpu <==> device_of(device) == Some(OvDevice::Cpu),
        target_of(device) == OvTarget::Npu <==> device_of(device) == Some(OvDevice::Npu),
        target_of(device) == OvTarget::UnresolvedAuto <==> trim_of(device) == "AUTO"@ || trim_of(
            device,
        ) == "MULTI"@,
        target_of(device) != OvTarget::NonGpuComposite,
{
    law_split_once_is_at_the_first(trim_of(device), ':');
    law_white_space_around_a_device_is_ignored(device);
    reveal_strlit("AUTO");
    reveal_strlit("MULTI");
    if device_of(device) is Some {
        law_an_entry_starts_with_its_device(device, device_of(device)->0);
        assert(trim_of(device).take(3)[1] == 'P');
        assert(trim_of(device)[1] == 'P');
    }
}

/// What a list resolves to: a choice left to OpenVINO where there is nothing in it, no GPU
/// where every entry names the processor or the neural processor, and otherwise perhaps a GPU.
/// Behind a prefix that is not one of the four it is always perhaps a GPU.
pub proof fn law_lists_resolve_by_their_entries(prefix: Seq<char>, list: Seq<char>)
    requires
        !prefix.contains(':'),
    ensures
        ({
            let known = trim_of(prefix) == "AUTO"@ || trim_of(prefix) == "MULTI"@ || trim_of(prefix)
                == "HETERO"@ || trim_of(prefix) == "BATCH"@;
            let target = list_target(trim_of(prefix), list);
            let entries = split_of(list, ',');
            &&& split_once_of(prefix + seq![':'] + list, ':') == Some((prefix, list))
            &&& target == OvTarget::UnresolvedAuto <==> known && trim_of(list).len() == 0
            &&& target == OvTarget::NonGpuComposite <==> known && trim_of(list).len() > 0 && (
            forall|i: int|
                0 <= i < entries.len() ==> device_of(#[trigger] entries[i]) == Some(OvDevice::Cpu)
                    || device_of(entries[i]) == Some(OvDevice::Npu))
            &&& target == OvTarget::UnresolvedAuto || target == OvTarget::NonGpuComposite || target
                == OvTarget::GpuComposite
        }),
{
    law_split_once_finds_the_parts(prefix, ':', list);
    let entries = split_of(list, ',');
    if forall|i: int|
        0 <= i < entries.len() ==> device_of(#[trigger] entries[i]) == Some(OvDevice::Cpu)
            || device_of(entries[i]) == Some(OvDevice::Npu) {
        assert(all_read(entries));
        assert(!names_a_gpu(entries));
    }
    if !names_a_gpu(entries) && all_read(entries) {
        assert forall|i: int| 0 <= i < entries.len() implies device_of(#[trigger] entries[i])
            == Some(OvDevice::Cpu) || device_of(entries[i]) == Some(OvDevice::Npu) by {
            assert(device_of(entries[i]) is Some);
        }
    }
}

/// A device string with a colon is a prefix and a list; without white space around it, what
/// it resolves to is what the two do.
pub proof fn law_a_colon_makes_a_list(device: Seq<char>)
    requires
        trim_of(device).contains(':'),
    ensures
        exists|prefix: Seq<char>, list: Seq<char>|
            {
                &&& trim_of(device) == #[trigger] (prefix + seq![':']) + list
                &&& !prefix.contains(':')
                &&& target_of(device) == #[trigger] list_target(trim_of(prefix), list)
            },
{
    law_split_once_is_at_the_first(trim_of(device), ':');
    let (prefix, list) = split_once_of(trim_of(device), ':')->0;
    assert(trim_of(device) == prefix + seq![':'] + list);
    assert(target_of(device) == list_target(trim_of(prefix), list));
}

/// Modes other than OpenVINO never reach the plugin. An OpenVINO mode certainly does unless
/// its device is the processor, the neural processor, a list of these or a choice left to
/// OpenVINO; and it may unless it is one of the first three.
pub proof fn law_who_reaches_the_plugin(device_type: &'static str)
    ensures
        ({
            let mode = ExecutionMode::OpenVino { device_type };
            let target = target_of(device_type@);
            let safe = target == OvTarget::Cpu || target == OvTarget::Npu || target
                == OvTarget::NonGpuComposite;
            &&& may_reach_plugin(mode) <==> !safe
            &&& reaches_plugin(mode) <==> !safe && target != OvTarget::UnresolvedAuto
        }),
        !may_reach_plugin(ExecutionMode::Cpu) && !reaches_plugin(ExecutionMode::Cpu),
        !may_reach_plugin(ExecutionMode::CoreMl) && !reaches_plugin(ExecutionMode::CoreMl),
        !may_reach_plugin(ExecutionMode::CoreMlFast) && !reaches_plugin(ExecutionMode::CoreMlFast),
        !may_reach_plugin(ExecutionMode::Cuda) && !reaches_plugin(ExecutionMode::Cuda),
        !may_reach_plugin(ExecutionMode::CudaFast) && !reaches_plugin(ExecutionMode::CudaFast),
        !may_reach_plugin(ExecutionMode::MiGraphX) && !reaches_plugin(ExecutionMode::MiGraphX),
{
}

} // verus!
