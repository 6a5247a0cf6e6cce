# jms_rdp_launcher

A launcher for JumpServer `jms://` links, verified with Verus. It decodes a link, adapts the
remote desktop configuration in it, writes a `.rdp` file and starts the remote desktop client.
On Windows it can also write the credentials that the gateway asks for, and delete them when the
client has returned.

- `src/` is the library. It reads links, adapts configurations and decides what is to be done;
  every function states what it returns, and Verus proves it. Public proof functions whose names
  start with `law_` state what holds of several functions together.
- `app/` is the program around it: arguments, files, processes, the registry.
- `tests/` runs the library.

| Module | What it does |
| --- | --- |
| `text`, `utf` | texts as sequences of characters, and texts from bytes |
| `percent`, `base64`, `json` | the encodings of a link, from the outside in |
| `base64_laws` | Base64 texts that are spelled differently and stand for the same |
| `documents` | writing JSON documents, as a measure of reading them |
| `link` | links, and the connections that they ask for |
| `spelling` | links that are spelled differently and ask for the same |
| `settings` | reading `.rdp` files |
| `profiles`, `rewriting`, `template` | which configuration the client gets |
| `profile_laws` | what the profiles keep and what they set |
| `redact` | keeping secrets out of the log |
| `credentials`, `events`, `launch` | the start of the client, and what follows |
| `registration`, `paths`, `files` | the handler of links, and files |
| `cli`, `run`, `steps` | the command line, and the steps that the program takes |

The library trusts five functions of the standard library, each through one declaration with its
contract: `String::push` and `char::from_u32` in `text`, `String::from_utf8`,
`String::from_utf8_lossy` and `String::from_utf16` in `utf`.
