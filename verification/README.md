# deckery

Remaps the buttons, sticks and trackpads of game controllers to keys, commands
and pointer movements, with a configuration that follows the focused window.

`src/` is the library, written in Verus: every function in it is proved against
the contract it states. `app/` is the program around it, which reads devices,
files and sockets and does what the library says. `tests/` runs the library on
concrete values.

## The program

Without arguments it drives the devices. `enable NAME`, `disable NAME`,
`enable-group NAME` and `disable-group NAME` change and save what is switched
on; `suppress-lizard-mode buttons,mouse` only keeps the controller from acting
as a mouse and a keyboard; `trace-record` records the controller's devices.

## The library

| Module | Subject |
| --- | --- |
| `event`, `text`, `order`, `keyed` | names of keys and axes, texts, orders, association lists |
| `config`, `parse`, `hints` | configuration files: bindings, layers merged into one, hints on the buttons they belong to |
| `resolver` | what a button does while others are held |
| `layers`, `groups`, `conflicts`, `registry` | all files together: which take part, in which order, what is in effect for a window and a layout |
| `preferences`, `files` | what the user switched on and off, and where files lie |
| `settings`, `axes`, `reader`, `loops` | from device events to presses, from presses to what is sent or run, and what goes on while nothing is pressed |
| `controller`, `lizard_mode`, `haptics`, `pads` | the controller's reports, its settings, its pulses and its trackpads |
| `devices`, `session`, `windows` | which devices are started, which session this is, which window has the focus |
| `state_export`, `trace`, `desktop_defaults` | snapshots for a display, recorded traces, the desktop's pointer settings |

Functions named `law_...` state what holds of several functions together, such
as that a release is never swallowed in gaming mode, or that what was picked
from an exclusive group is picked again after a restart.

## What is taken on trust

Private functions marked `external_body` call into the standard library and the
crates `evdev` and `serde_json`. Their doc comments say what is believed of the
calls: how keys are named, how a text is lower-cased, how a text is quoted,
which bytes are UTF-8, and how a member of a JSON text is written. Nothing else
is assumed.
