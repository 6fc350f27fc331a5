//! The transformation of a container's inspection record into the
//! `docker run` command line that recreates the container, done by a
//! JavaScript function run in QuickJS.

use vstd::prelude::*;
use vstd::string::StringExecFns;
use crate::json::is_json_text;
use vstd::string::to_string_from_display_ensures;

verus! {

/// The script up to the place of the inspection record: the definition of
/// `toRunCommand` and its helpers, then the opening of its call.
pub const SCRIPT_HEAD: &'static str = r#"
    function toRunCommand (inspectObj) {
        let rc = append('docker run', '--name', inspectObj.Name.replace("/", ""))
      
        const hostcfg = inspectObj.HostConfig || {}
        const networkMode = hostcfg.NetworkMode
        const utsMode = hostcfg.UTSMode
        const modes = { networkMode, utsMode }
      
        rc = appendBoolean(rc, hostcfg.Privileged, '--privileged') // fixes #49
        // TODO something about devices or capabilities instead of privileged?
        // --cap-add: Add Linux capabilities
        // --cap-drop: Drop Linux capabilities
        // --device=[]: Allows you to run devices inside the container without the --privileged flag
        // see https://docs.docker.com/engine/reference/run/#runtime-privilege-and-linux-capabilities
      
        if (hostcfg.Runtime) rc = append(rc, '--runtime', hostcfg.Runtime)
        rc = appendArray(rc, '-v', hostcfg.Binds)
        rc = appendArray(rc, '--volumes-from', hostcfg.VolumesFrom)
        if (hostcfg.PortBindings && isCompatible('-p', modes)) {
          rc = appendObjectKeys(rc, '-p', hostcfg.PortBindings, ipPort => {
            return ipPort.HostIp ? ipPort.HostIp + ':' + ipPort.HostPort : ipPort.HostPort
          })
        }
        rc = appendArray(rc, '--link', hostcfg.Links, link => {
          link = link.split(':')
          if (link[0] && ~link[0].lastIndexOf('/')) link[0] = link[0].substring(link[0].lastIndexOf('/') + 1)
          if (link[1] && ~link[1].lastIndexOf('/')) link[1] = link[1].substring(link[1].lastIndexOf('/') + 1)
          return link[0] + ':' + link[1]
        })
        if (hostcfg.PublishAllPorts && isCompatible('-P', modes)) rc = rc + ' -P'
      
        if (networkMode && networkMode !== 'default') {
          rc = append(rc, '--net', networkMode)
        }
        if (utsMode && isCompatible('--uts', modes)) {
          rc = append(rc, '--uts', utsMode)
        }
        if (hostcfg.RestartPolicy && hostcfg.RestartPolicy.Name) {
          rc = append(rc, '--restart', hostcfg.RestartPolicy, policy => {
            return policy.Name === 'on-failure' ? policy.Name + ':' + policy.MaximumRetryCount : policy.Name
          })
        }
        if (isCompatible('--add-host', modes)) rc = appendArray(rc, '--add-host', hostcfg.ExtraHosts)
        rc = appendArray(rc, '--group-add', hostcfg.GroupAdd)
        if (hostcfg.PidMode) rc = append(rc, '--pid', hostcfg.PidMode)
        rc = appendArray(rc, '--security-opt', hostcfg.SecurityOpt, quote)
      
        const cfg = inspectObj.Config || {}
      
        if (cfg.Hostname && isCompatible('-h', modes)) rc = append(rc, '-h', cfg.Hostname)
        if (cfg.Domainname && isCompatible('--domainname', modes)) rc = append(rc, '--domainname', cfg.Domainname)
      
        if (cfg.ExposedPorts && isCompatible('--expose', modes)) {
          rc = appendObjectKeys(rc, '--expose', cfg.ExposedPorts)
        }
        if (cfg.Labels) {
          // rc = appendObjectEntries(rc, '-l', cfg.Labels, '=')
          rc = appendObjectKeys(rc, '-l', cfg.Labels)
        }
        rc = appendArray(rc, '-e', cfg.Env, quote)
        rc = appendConfigBooleans(rc, cfg)
        if (cfg.Entrypoint) rc = appendJoinedArray(rc, '--entrypoint', cfg.Entrypoint, ' ')
      
        rc = rc + ' ' + (cfg.Image || inspectObj.Image)
      
        if (cfg.Cmd) rc = appendJoinedArray(rc, null, cfg.Cmd, ' ')
      
        return rc
      }
      
      // The following options are invalid in 'container' NetworkMode:
      // --add-host
      // -h, --hostname
      // --dns
      // --dns-search
      // --dns-option
      // --mac-address
      // -p, --publish
      // -P, --publish-all
      // --expose
      // The following options are invalid in 'host' UTSMode:
      // -h, --hostname
      // --domainname
      function isCompatible (flag, modes) {
        switch (flag) {
          case '-h':
            return !(modes.networkMode || '').startsWith('container:') && modes.utsMode !== 'host'
          case '--add-host':
          case '--dns':
          case '--dns-search':
          case '--dns-option':
          case '--mac-address':
          case '-p':
          case '-P':
          case '--expose':
            return !(modes.networkMode || '').startsWith('container:')
          case '--domainname':
            return modes.utsMode !== 'host'
          default:
            return true
        }
      }
      
      function quote (str) {
        return '\'' + str.replace(/'/g, '\'\\\'\'') + '\''
      }
      
      function appendConfigBooleans (str, cfg) {
        const stdin = cfg.AttachStdin === true
        const stdout = cfg.AttachStdout === true
        const stderr = cfg.AttachStderr === true
        str = appendBoolean(str, !stdin && !stdout && !stderr, '-d')
        str = appendBoolean(str, stdin, '-a', 'stdin')
        str = appendBoolean(str, stdout, '-a', 'stdout')
        str = appendBoolean(str, stderr, '-a', 'stderr')
        str = appendBoolean(str, cfg.Tty === true, '-t')
        str = appendBoolean(str, cfg.OpenStdin === true, '-i')
        return str
      }
      
      function appendBoolean (str, bool, key, val) {
        return bool ? (val ? append(str, key, val) : str + ' ' + key) : str
      }
      
      function appendJoinedArray (str, key, array, join) {
        if (!Array.isArray(array)) return str
      
        // --entrypoint "tini -- /docker-entrypoint.sh"
        if (key) return append(str, key, array.join(join), joined => '"' + joined + '"')
      
        // 'sh' '-c' '(a -a) && (b -b)'
        return append(str, key, array.map(quote).join(join))
      }
      
      function appendObjectKeys (str, key, obj, transformer) {
        let newStr = str
        Object.keys(obj).forEach(k => {
          newStr = append(newStr, key, { key: k, val: obj[k] }, agg => {
            if (!agg.val) return agg.key
            let v = ''
            if (Array.isArray(agg.val)) {
              // used for PortBindings
              agg.val.forEach(valObj => {
                v = (typeof transformer === 'function' ? transformer(valObj) : valObj)
              })
            } else if (typeof agg.val === 'string') {
              // used for Labels
              return agg.key + '=' + quote(agg.val)
            }
            // prefix used for PortBindings, key-only used for ExposedPorts
            return (v ? v + ':' : '') + agg.key
          })
        })
        return newStr
      }
      
      function appendArray (str, key, array, transformer) {
        if (!Array.isArray(array)) return str
        let newStr = str
        array.forEach(v => {
          newStr = append(newStr, key, v, transformer)
        })
        return newStr
      }
      
      function append (str, key, val, transformer) {
        if (!val) return str
        return str + ' ' + (key ? key + ' ' : '') + (typeof transformer === 'function' ? transformer(val) : val)
      }

      toRunCommand("#;

/// The script after the inspection record: the end of the call.
pub const SCRIPT_TAIL: &'static str = ")\n    ";

/// The script that turns the inspection record `data` (JSON text) into the
/// command line: the record stands, unchanged, as the argument of the call of
/// `toRunCommand`.
pub open spec fn spec_transform_script(data: Seq<char>) -> Seq<char> {
    SCRIPT_HEAD@ + data + SCRIPT_TAIL@
}

/// Builds the script that turns the inspection record `data` into the command
/// line.
pub fn transform_script(data: &str) -> (r: String)
    ensures
        r@ == spec_transform_script(data@),
        r@ == SCRIPT_HEAD@ + data@ + SCRIPT_TAIL@,
{
    let mut script = String::from_str(SCRIPT_HEAD);
    script.append(data);
    script.append(SCRIPT_TAIL);
    script
}

/// `quick_js::Context`, a QuickJS runtime and context, held opaque.
#[verifier::external_type_specification]
#[verifier::external_body]
pub struct ExContext(quick_js::Context);

/// `quick_js::ContextError`, why a context could not be made, held opaque.
#[verifier::external_type_specification]
#[verifier::external_body]
pub struct ExContextError(quick_js::ContextError);

/// `quick_js::ExecutionError`, why a script failed, held opaque.
#[verifier::external_type_specification]
#[verifier::external_body]
pub struct ExExecutionError(quick_js::ExecutionError);

/// `quick_js::Context::new`: a fresh QuickJS runtime and context. Nothing is
/// claimed of the outcome; QuickJS refuses when it cannot allocate them.
#[verifier::external_body]
fn new_js_context() -> (r: Result<quick_js::Context, quick_js::ContextError>) {
    quick_js::Context::new()
}

/// The string that the script `code` yields as the value of its final
/// expression when QuickJS runs it in a fresh context.
pub uninterp spec fn js_string_value(code: Seq<char>) -> Seq<char>;

/// `quick_js::Context::eval_as::<String>`: runs `code` in `context`, which it
/// takes over, and converts the value of its final expression to a string.
/// Claimed: where it succeeds, the string is `js_string_value(code@)`, the
/// same for the same script. That is claimed only for a script that is the
/// command line script around a JSON text: that script defines every function it
/// calls, uses neither the clock nor chance, and runs to an end on a finite,
/// acyclic value, yielding a string. Nothing is claimed of when it fails (the
/// record may lack what the script reads).
#[verifier::external_body]
fn eval_js_as_string(context: quick_js::Context, code: &str) -> (r: Result<
    String,
    quick_js::ExecutionError,
>)
    requires
        exists|d: Seq<char>| is_json_text(d) && code@ == #[trigger] spec_transform_script(d),
    ensures
        r matches Ok(s) ==> s@ == js_string_value(code@),
{
    context.eval_as::<String>(code)
}

/// `m` is the message of an error that QuickJS reported: what the `Display`
/// of a `quick_js::ContextError` or a `quick_js::ExecutionError` writes.
pub open spec fn is_quickjs_message(m: String) -> bool {
    ||| exists|e: quick_js::ContextError|
        #[trigger] to_string_from_display_ensures::<quick_js::ContextError>(&e, m)
    ||| exists|e: quick_js::ExecutionError|
        #[trigger] to_string_from_display_ensures::<quick_js::ExecutionError>(&e, m)
}

/// Turns the inspection record `data` of a container (JSON text, as the Docker
/// engine reports it) into the `docker run` command line that recreates the
/// container, by running the script `transform_script(data)` in a fresh QuickJS
/// context. Errors of QuickJS are reported by their messages.
pub fn transform(data: String) -> (r: Result<String, String>)
    requires
        is_json_text(data@),
    ensures
        r matches Ok(s) ==> s@ == js_string_value(spec_transform_script(data@)),
        r matches Err(m) ==> is_quickjs_message(m),
{
    let context = match new_js_context() {
        Ok(c) => c,
        Err(e) => {
            let m = e.to_string();
            assert(to_string_from_display_ensures::<quick_js::ContextError>(&e, m));
            assert(exists|x: quick_js::ContextError|
                #[trigger] to_string_from_display_ensures::<quick_js::ContextError>(&x, m));
            assert(is_quickjs_message(m));
            return Err(m);
        },
    };
    let script = transform_script(data.as_str());
    assert(is_json_text(data@) && script@ == spec_transform_script(data@));
    match eval_js_as_string(context, script.as_str()) {
        Ok(value) => Ok(value),
        Err(e) => {
            let m = e.to_string();
            assert(to_string_from_display_ensures::<quick_js::ExecutionError>(&e, m));
            assert(exists|x: quick_js::ExecutionError|
                #[trigger] to_string_from_display_ensures::<quick_js::ExecutionError>(&x, m));
            assert(is_quickjs_message(m));
            Err(m)
        },
    }
}

/// The script holds the record whole, between the fixed head and tail: the
/// record can be read back from it.
pub proof fn law_script_holds_record(d: Seq<char>)
    ensures
        spec_transform_script(d).len() == SCRIPT_HEAD@.len() + d.len() + SCRIPT_TAIL@.len(),
        spec_transform_script(d).subrange(
            SCRIPT_HEAD@.len() as int,
            (SCRIPT_HEAD@.len() + d.len()) as int,
        ) == d,
{
    let t = spec_transform_script(d);
    assert(t.subrange(SCRIPT_HEAD@.len() as int, (SCRIPT_HEAD@.len() + d.len()) as int) =~= d);
}

/// Two records give the same script only where they are the same.
pub proof fn law_script_injective(d1: Seq<char>, d2: Seq<char>)
    requires
        spec_transform_script(d1) == spec_transform_script(d2),
    ensures
        d1 == d2,
{
    law_script_holds_record(d1);
    law_script_holds_record(d2);
}

} // verus!
