# winstats

Resource usage in the taskbar of Windows: processor, memory, graphics, disks,
network and battery as small widgets, a popup with details for each, and the
same for other machines on the network that run the agent.

The library under `src/` holds the rules: what is counted and how, what the
strip, the popups and the menu show, how frames travel between machines, and
how both ends of a session behave. It is written in Verus, and every function
states what it returns. Fractions and rates are kept as their bit patterns;
arithmetic on them is done by the program.

* `metrics/` – what the local machine tells: cores, memory modules, disks,
  drives, adapters, interfaces, processes, and the histories of it all
* `widgets/`, `strip`, `canvas`, `taskbar` – the strip and its widgets
* `popup/`, `about` – the popups and the window about the program
* `menu`, `tracking`, `commands`, `config`, `i18n` – settings and their menu
* `proto`, `session` – frames and sessions
* `remote/`, `share` – other machines, and this one for others
* `agent/` – the agent: its settings, service, samples and beacons
* `update` – the check for a newer release
* `text`, `order`, `number`, `util` – what the rest is built on

`app/` is the program around it: windows, drawing, sockets and files.
`tests/` runs the library on values.
