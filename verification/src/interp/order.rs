//! What binding keeps of a call's arguments: their number and their order.

use vstd::prelude::*;

use crate::bytecode::ParamSpec;
use crate::heap::HeapModel;
use crate::interp::bind;
use crate::interp::bind::{PendingModel, Write};
use crate::interp::make;
use crate::interp::object;
use crate::value::{SymbolId, Unpacked, Value};

verus! {

broadcast use Value::law_pack;

/// How many slots the positional parameters take.
pub open spec fn positions(spec: ParamSpec) -> int {
    spec.required + spec.optional@.len() + (if spec.rest is Some {
        1int
    } else {
        0
    }) + spec.post
}

/// Whether a list of parameters without keywords has its slots one behind the
/// other: the required ones, the optional ones, the splat, those behind it, and
/// the block.
pub open spec fn laid_out(spec: ParamSpec) -> bool {
    &&& spec.keywords@.len() == 0
    &&& forall|i: int|
        0 <= i < spec.optional@.len() ==> (#[trigger] spec.optional@[i]).slot == spec.required + i
    &&& spec.rest matches Some(slot) ==> slot == spec.required + spec.optional@.len()
    &&& spec.block matches Some(slot) ==> slot >= positions(spec)
}

/// How many optional parameters a call with so many arguments supplies.
pub open spec fn supplied(spec: ParamSpec, given: int) -> int {
    let extra = given - spec.required - spec.post;
    if extra < 0 {
        0
    } else if extra < spec.optional@.len() {
        extra
    } else {
        spec.optional@.len() as int
    }
}

/// What the splat of a bound environment gathered; nothing where there is none.
pub open spec fn gathered(m: HeapModel, spec: ParamSpec, locals: Seq<Value>) -> Seq<Value> {
    match spec.rest {
        Some(slot) => object::elements_in(m, locals[slot as int])->0,
        None => Seq::empty(),
    }
}

/// The arguments that a bound environment was given, read back from its locals:
/// the required parameters, the optional ones that were supplied, what the
/// splat gathered, and the parameters behind it.
pub open spec fn read_back(m: HeapModel, spec: ParamSpec, locals: Seq<Value>, given: int) -> Seq<
    Value,
> {
    let optional = spec.required as int;
    let trailing = positions(spec) - spec.post;
    locals.subrange(0, optional) + locals.subrange(optional, optional + supplied(spec, given))
        + gathered(m, spec, locals) + locals.subrange(trailing, trailing + spec.post)
}

/// The last write to a local is what it holds.
proof fn lemma_written_at(locals: Seq<Value>, writes: Seq<Write>, k: int)
    requires
        bind::in_range(locals.len(), writes),
        0 <= k < writes.len(),
        forall|j: int| k < j < writes.len() ==> (#[trigger] writes[j]).0 != writes[k].0,
    ensures
        bind::written(locals, writes).len() == locals.len(),
        bind::written(locals, writes)[writes[k].0] == writes[k].1,
    decreases writes.len(),
{
    let fewer = writes.drop_last();
    assert forall|i: int| 0 <= i < fewer.len() implies 0 <= (#[trigger] fewer[i]).0
        < locals.len() by {
        assert(fewer[i] == writes[i]);
    }
    bind::lemma_written(locals, fewer);
    assert(0 <= writes[writes.len() - 1].0 < locals.len());
    if k < writes.len() - 1 {
        assert(fewer[k] == writes[k]);
        lemma_written_at(locals, fewer, k);
        assert(writes[writes.len() - 1].0 != writes[k].0);
        assert(0 <= writes[k].0 < locals.len());
    }
}

/// The writes of a list of parameters whose slots are one behind the other.
proof fn lemma_positional(
    spec: ParamSpec,
    symbols: Seq<SymbolId>,
    args: Seq<Value>,
    rest: Value,
    call: PendingModel,
)
    requires
        laid_out(spec),
    ensures
        ({
            let writes = bind::all_writes(spec, symbols, args, rest, call);
            &&& positions(spec) <= writes.len()
            &&& forall|k: int| 0 <= k < positions(spec) ==> (#[trigger] writes[k]).0 == k
            &&& forall|k: int|
                positions(spec) <= k < writes.len() ==> (#[trigger] writes[k]).0 >= positions(spec)
            &&& forall|k: int|
                0 <= k < positions(spec) ==> (#[trigger] writes[k]) == bind::positional_writes(
                    spec,
                    args,
                    rest,
                )[k]
        }),
{
    let positional = bind::positional_writes(spec, args, rest);
    let required = bind::required_writes(spec, args);
    let optional = bind::optional_writes(spec, args);
    let splat = bind::rest_writes(spec, rest);
    let post = bind::post_writes(spec, args);
    assert(positional.len() == positions(spec));
    assert forall|k: int| 0 <= k < positions(spec) implies (#[trigger] positional[k]).0 == k by {
        if k < spec.required {
            assert(positional[k] == required[k]);
        } else if k < spec.required + spec.optional@.len() {
            assert(positional[k] == optional[k - spec.required]);
            assert(spec.optional@[k - spec.required].slot == k);
        } else if k < spec.required + spec.optional@.len() + splat.len() {
            assert(positional[k] == splat[k - spec.required - spec.optional@.len()]);
        } else {
            assert(positional[k] == post[k - spec.required - spec.optional@.len() - splat.len()]);
        }
    }
    let keywords = bind::keyword_writes(spec.keywords@, symbols, call.keywords, 0)->Given_0;
    assert(keywords.len() == 0);
    let writes = bind::all_writes(spec, symbols, args, rest, call);
    assert forall|k: int| 0 <= k < positions(spec) implies (#[trigger] writes[k])
        == positional[k] by {
    }
    assert forall|k: int| positions(spec) <= k < writes.len() implies (#[trigger] writes[k]).0
        >= positions(spec) by {
        assert(writes[k] == bind::block_writes(spec, call.block)[k - positions(spec)]);
    }
}

/// Binding keeps the arguments of a call and their order. Read back in the order
/// of the parameters, with what the splat gathered in its place, the locals that
/// were bound are the arguments, where there are as many as the parameters
/// accept. An optional parameter that was not supplied is left unset.
pub proof fn law_binding_keeps_the_order(
    before: HeapModel,
    after: HeapModel,
    env: Value,
    spec: ParamSpec,
    symbols: Seq<SymbolId>,
    call: PendingModel,
    strict: bool,
)
    requires
        laid_out(spec),
        make::env_locals(before, env) is Some,
        bind::refusal(
            before,
            make::env_locals(before, env)->0.len(),
            spec,
            symbols,
            call,
            strict,
        ) is None,
        bind::bound(before, after, env, spec, symbols, call, strict),
        spec.accepts(bind::spread_args(before, spec, call.args, strict).len() as int),
    ensures
        ({
            let args = bind::spread_args(before, spec, call.args, strict);
            let locals = make::env_locals(after, env)->0;
            &&& make::env_locals(after, env) is Some
            &&& read_back(after, spec, locals, args.len() as int) == args
            &&& forall|k: int|
                spec.required + supplied(spec, args.len() as int) <= k < spec.required
                    + spec.optional@.len() ==> #[trigger] locals[k] == Value::pack(Unpacked::Undef)
        }),
{
    let args = bind::spread_args(before, spec, call.args, strict);
    let rest = choose|rest: Value| #[trigger]
        bind::bound_with(before, after, env, spec, symbols, call, strict, rest);
    lemma_bound_locals(before, after, env, spec, symbols, call, strict, rest);
    let locals = make::env_locals(after, env)->0;
    lemma_positional_values(spec, symbols, args, rest, call);
    let writes = bind::all_writes(spec, symbols, args, rest, call);
    assert forall|k: int| 0 <= k < positions(spec) implies #[trigger] locals[k]
        == writes[k].1 by {
    }
    if spec.rest is Some {
        assert(locals[spec.required + spec.optional@.len()] == rest);
    }
    lemma_read_back(after, spec, locals, args);
}

/// The locals that were bound.
proof fn lemma_bound_locals(
    before: HeapModel,
    after: HeapModel,
    env: Value,
    spec: ParamSpec,
    symbols: Seq<SymbolId>,
    call: PendingModel,
    strict: bool,
    rest: Value,
)
    requires
        laid_out(spec),
        make::env_locals(before, env) is Some,
        bind::refusal(
            before,
            make::env_locals(before, env)->0.len(),
            spec,
            symbols,
            call,
            strict,
        ) is None,
        bind::bound_with(before, after, env, spec, symbols, call, strict, rest),
    ensures
        ({
            let args = bind::spread_args(before, spec, call.args, strict);
            let writes = bind::all_writes(spec, symbols, args, rest, call);
            let locals = make::env_locals(after, env)->0;
            &&& make::env_locals(after, env) is Some
            &&& positions(spec) <= locals.len()
            &&& forall|k: int| 0 <= k < positions(spec) ==> #[trigger] locals[k] == writes[k].1
            &&& spec.rest is Some ==> object::elements_in(after, rest) == Some(
                bind::rest_args(spec, args),
            )
        }),
{
    let args = bind::spread_args(before, spec, call.args, strict);
    let was = make::env_locals(before, env)->0;
    let writes = bind::all_writes(spec, symbols, args, rest, call);
    let planned = bind::all_writes(spec, symbols, args, Value::pack(Unpacked::Nil), call);
    lemma_positional(spec, symbols, args, rest, call);
    lemma_positional(spec, symbols, args, Value::pack(Unpacked::Nil), call);
    assert(writes.len() == planned.len());
    assert(bind::in_range(was.len(), planned));
    assert forall|k: int| 0 <= k < writes.len() implies 0 <= (#[trigger] writes[k]).0
        < was.len() by {
        assert(0 <= planned[k].0 < was.len());
        if k >= positions(spec) {
            assert(writes[k] == bind::block_writes(spec, call.block)[k - positions(spec)]);
            assert(planned[k] == bind::block_writes(spec, call.block)[k - positions(spec)]);
        }
    }
    let locals = bind::written(was, writes);
    bind::lemma_written(was, writes);
    assert(make::env_locals(after, env) == Some(locals)) by {
        let slots = after.object(env).body->Slots_0;
        assert(slots.skip(1) =~= locals);
    }
    assert forall|k: int| 0 <= k < positions(spec) implies #[trigger] locals[k]
        == writes[k].1 by {
        assert(writes[k].0 == k);
        assert forall|j: int| k < j < writes.len() implies (#[trigger] writes[j]).0
            != writes[k].0 by {
        }
        lemma_written_at(was, writes, k);
    }
    if positions(spec) > 0 {
        assert(writes[positions(spec) - 1].0 == positions(spec) - 1);
    }
}

/// Locals that hold the arguments in the order of the parameters read back as
/// the arguments.
proof fn lemma_read_back(m: HeapModel, spec: ParamSpec, locals: Seq<Value>, args: Seq<Value>)
    requires
        laid_out(spec),
        spec.accepts(args.len() as int),
        positions(spec) <= locals.len(),
        forall|k: int|
            0 <= k < spec.required + supplied(spec, args.len() as int) ==> #[trigger] locals[k]
                == args[k],
        forall|k: int|
            positions(spec) - spec.post <= k < positions(spec) ==> #[trigger] locals[k]
                == args[args.len() - spec.post + (k - (positions(spec) - spec.post))],
        spec.rest matches Some(slot) ==> object::elements_in(m, locals[slot as int]) == Some(
            bind::rest_args(spec, args),
        ),
    ensures
        read_back(m, spec, locals, args.len() as int) == args,
{
    let given = args.len() as int;
    let first = spec.required as int;
    let some = supplied(spec, given);
    let trailing = positions(spec) - spec.post;
    let middle = gathered(m, spec, locals);
    let back = read_back(m, spec, locals, given);
    assert(bind::leading(spec, given) == first);
    assert(bind::trailing(spec, given) == spec.post);
    assert(bind::taken(spec, given) == some);
    assert(middle.len() == given - first - some - spec.post);
    assert(back.len() == given);
    assert forall|k: int| 0 <= k < given implies #[trigger] back[k] == args[k] by {
        if k < first {
            assert(back[k] == locals[k]);
        } else if k < first + some {
            assert(back[k] == locals[k]);
        } else if k < first + some + middle.len() {
            assert(back[k] == middle[k - first - some]);
        } else {
            assert(back[k] == locals[trailing + (k - first - some - middle.len())]);
        }
    }
    assert(back =~= args);
}

/// The values of the positional writes.
proof fn lemma_positional_values(
    spec: ParamSpec,
    symbols: Seq<SymbolId>,
    args: Seq<Value>,
    rest: Value,
    call: PendingModel,
)
    requires
        laid_out(spec),
        spec.accepts(args.len() as int),
    ensures
        ({
            let writes = bind::all_writes(spec, symbols, args, rest, call);
            let given = args.len() as int;
            let first = spec.required as int;
            let some = supplied(spec, given);
            let trailing = positions(spec) - spec.post;
            &&& forall|k: int| 0 <= k < first + some ==> (#[trigger] writes[k]).1 == args[k]
            &&& forall|k: int|
                first + some <= k < first + spec.optional@.len() ==> (#[trigger] writes[k]).1
                    == Value::pack(Unpacked::Undef)
            &&& spec.rest is Some ==> writes[first + spec.optional@.len()].1 == rest
            &&& forall|k: int|
                trailing <= k < positions(spec) ==> (#[trigger] writes[k]).1 == args[given - spec.post
                    + (k - trailing)]
        }),
{
    lemma_positional(spec, symbols, args, rest, call);
    let given = args.len() as int;
    let first = spec.required as int;
    let writes = bind::all_writes(spec, symbols, args, rest, call);
    let positional = bind::positional_writes(spec, args, rest);
    let required = bind::required_writes(spec, args);
    let optional = bind::optional_writes(spec, args);
    let splat = bind::rest_writes(spec, rest);
    let post = bind::post_writes(spec, args);
    let trailing = positions(spec) - spec.post;
    assert(bind::leading(spec, given) == first);
    assert(bind::trailing(spec, given) == spec.post);
    assert(bind::taken(spec, given) == supplied(spec, given));
    assert forall|k: int| 0 <= k < positions(spec) implies (#[trigger] writes[k]).1
        == if k < first {
        required[k].1
    } else if k < first + spec.optional@.len() {
        optional[k - first].1
    } else if k < trailing {
        rest
    } else {
        post[k - trailing].1
    } by {
        assert(writes[k] == positional[k]);
        if k < first {
            assert(positional[k] == required[k]);
        } else if k < first + spec.optional@.len() {
            assert(positional[k] == optional[k - first]);
        } else if k < trailing {
            assert(positional[k] == splat[k - first - spec.optional@.len()]);
        } else {
            assert(positional[k] == post[k - trailing]);
        }
    }
}

} // verus!
